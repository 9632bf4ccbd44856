//! Content identifiers: 32-byte BLAKE3 digests and their textual form.

use vstd::prelude::*;

verus! {

/// Number of bytes in a [`Hash`].
pub const HASH_SIZE_BYTES: usize = 32;

/// The BLAKE3 digest of a byte string: 32 bytes, a function of the input
/// alone.
pub uninterp spec fn blake3_digest(data: Seq<u8>) -> Seq<u8>;

/// The Base58Check text of a byte string: the bytes followed by the first
/// four bytes of their double SHA-256, in the Bitcoin alphabet.
pub uninterp spec fn bs58check_text(data: Seq<u8>) -> Seq<char>;

/// The payload of a Base58Check text, or `None` where the text holds a
/// character outside the alphabet, is too short to carry a checksum, or
/// carries a wrong one.
pub uninterp spec fn bs58check_payload(text: Seq<char>) -> Option<Seq<u8>>;

/// The error type of `bs58`'s decoder.
#[verifier::external_type_specification]
#[verifier::external_body]
pub struct ExBs58DecodeError(bs58::decode::Error);

/// Calls `blake3::hash` and copies the digest out.  Trusted: the result is
/// the BLAKE3 digest of `data`.
#[verifier::external_body]
pub(crate) fn blake3_of(data: &[u8]) -> (out: [u8; 32])
    ensures
        out@ == blake3_digest(data@),
{
    *blake3::hash(data).as_bytes()
}

/// Calls `bs58::encode(..).with_check().into_string()`.  Trusted: the result
/// is the Base58Check text of `data`.
#[verifier::external_body]
fn bs58check_encode(data: &[u8]) -> (out: String)
    ensures
        out@ == bs58check_text(data@),
{
    bs58::encode(data).with_check().into_string()
}

/// Calls `bs58::decode(..).with_check(None).into_vec()`.  Trusted: `Ok`
/// carries the payload exactly when the text has one.
#[verifier::external_body]
fn bs58check_decode(text: &str) -> (out: Result<Vec<u8>, bs58::decode::Error>)
    ensures
        match out {
            Ok(bytes) => bs58check_payload(text@) == Some(bytes@),
            Err(_) => bs58check_payload(text@) is None,
        },
{
    bs58::decode(text).with_check(None).into_vec()
}

/// Why a value of this module could not be built.
#[derive(Clone, Copy, Debug, PartialEq, Eq)]
pub enum HashError {
    /// The text is not the Base58Check form of exactly 32 bytes.
    InvalidText,
}

/// A 32-byte content identifier.
#[derive(Clone, Copy, Debug, PartialEq, Eq, PartialOrd, Ord, Hash)]
pub struct Hash {
    bytes: [u8; 32],
}

impl View for Hash {
    type V = Seq<u8>;

    closed spec fn view(&self) -> Seq<u8> {
        self.bytes@
    }
}

/// Two arrays with the same contents, compared byte by byte.
pub fn bytes32_eq(a: &[u8; 32], b: &[u8; 32]) -> (same: bool)
    ensures
        same == (a@ == b@),
{
    let mut i: usize = 0;
    while i < 32
        invariant
            i <= 32,
            forall|j: int| 0 <= j < i ==> a@[j] == b@[j],
        decreases 32 - i,
    {
        if a[i] != b[i] {
            return false;
        }
        i += 1;
    }
    assert(a@ =~= b@);
    true
}

impl Hash {
    /// Every hash is 32 bytes long.
    pub proof fn lemma_len(self)
        ensures
            self@.len() == 32,
    {
    }

    /// Hashes with equal views are equal.
    pub proof fn lemma_view_injective(self, other: Hash)
        requires
            self@ == other@,
        ensures
            self == other,
    {
        assert(self.bytes =~= other.bytes);
    }

    /// The digest of `data`.
    pub fn compute_from(data: &[u8]) -> (hash: Hash)
        ensures
            hash@ == blake3_digest(data@),
    {
        Hash { bytes: blake3_of(data) }
    }

    /// The hash with the given bytes.
    pub fn from_bytes(data: &[u8; 32]) -> (hash: Hash)
        ensures
            hash@ == data@,
    {
        Hash { bytes: *data }
    }

    /// The bytes of the hash.
    pub fn to_bytes(&self) -> (bytes: &[u8; 32])
        ensures
            bytes@ == self@,
    {
        &self.bytes
    }

    /// The bytes of the hash, by value.
    pub fn into_bytes(self) -> (bytes: [u8; 32])
        ensures
            bytes@ == self@,
    {
        self.bytes
    }

    /// Whether two hashes are the same.
    pub fn same(&self, other: &Hash) -> (same: bool)
        ensures
            same == (*self == *other),
            same == (self@ == other@),
    {
        let same = bytes32_eq(&self.bytes, &other.bytes);
        proof {
            if same {
                self.lemma_view_injective(*other);
            }
        }
        same
    }

    /// The Base58Check text of the hash.
    pub fn to_bs58_check(&self) -> (text: String)
        ensures
            text@ == bs58check_text(self@),
    {
        bs58check_encode(self.bytes.as_slice())
    }

    /// The hash whose bytes are `payload`; fails unless there are exactly 32
    /// of them.
    pub fn from_payload(payload: &[u8]) -> (out: Result<Hash, HashError>)
        ensures
            match out {
                Ok(hash) => hash@ == payload@,
                Err(e) => e == HashError::InvalidText && payload@.len() != 32,
            },
    {
        if payload.len() != 32 {
            return Err(HashError::InvalidText);
        }
        let mut bytes: [u8; 32] = [0u8; 32];
        let mut i: usize = 0;
        while i < 32
            invariant
                i <= 32,
                payload@.len() == 32,
                forall|j: int| 0 <= j < i ==> bytes@[j] == payload@[j],
            decreases 32 - i,
        {
            bytes[i] = payload[i];
            i += 1;
        }
        assert(bytes@ =~= payload@);
        Ok(Hash { bytes })
    }

    /// The hash whose bytes are the payload of `text`; fails unless `text`
    /// is well-formed Base58Check with a payload of exactly 32 bytes.
    pub fn from_bs58_check(text: &str) -> (out: Result<Hash, HashError>)
        ensures
            match out {
                Ok(hash) => bs58check_payload(text@) == Some(hash@),
                Err(e) => e == HashError::InvalidText && !(bs58check_payload(text@) matches Some(
                    p,
                ) && p.len() == 32),
            },
    {
        match bs58check_decode(text) {
            Err(_) => Err(HashError::InvalidText),
            Ok(payload) => Hash::from_payload(payload.as_slice()),
        }
    }
}

} // verus!

//! Endorsements and their wire format: the slot, the index as a
//! variable-width integer, then the 32 bytes of the endorsed block.

use crate::block::BlockId;
use crate::error::{DeserializeError, ModelsError};
use crate::hash::{bs58check_payload, bs58check_text};
use crate::slot::{
    lemma_slot_encoding_of_parse, lemma_slot_parse_of_encoding, Slot, slot_encoding, slot_parse,
};
use crate::varint::{
    lemma_encoding_of_parse, lemma_parse_bounds, lemma_parse_of_encoding, read_varint,
    varint_encoding, varint_parse_bounded, write_varint,
};
use vstd::prelude::*;
use vstd::slice::slice_subrange;

verus! {

/// Number of bytes in an [`EndorsementId`].
pub const ENDORSEMENT_ID_SIZE_BYTES: usize = crate::hash::HASH_SIZE_BYTES;

/// The identifier of an endorsement.
#[derive(Clone, Copy, Debug, PartialEq, Eq, PartialOrd, Ord, Hash)]
pub struct EndorsementId(crate::hash::Hash);

impl View for EndorsementId {
    type V = Seq<u8>;

    closed spec fn view(&self) -> Seq<u8> {
        self.0@
    }
}

impl EndorsementId {
    /// Identifiers with equal bytes are equal, and each has 32 bytes.
    pub proof fn lemma_view(self, other: EndorsementId)
        ensures
            self@.len() == 32,
            self@ == other@ <==> self == other,
    {
        self.0.lemma_len();
        if self@ == other@ {
            self.0.lemma_view_injective(other.0);
        }
    }

    /// The identifier made of `hash`.
    pub fn new(hash: crate::hash::Hash) -> (id: EndorsementId)
        ensures
            id@ == hash@,
    {
        EndorsementId(hash)
    }

    /// The hash inside the identifier.
    pub fn get_hash(&self) -> (hash: &crate::hash::Hash)
        ensures
            hash@ == self@,
    {
        &self.0
    }

    /// The bytes of the identifier.
    pub fn to_bytes(&self) -> (bytes: &[u8; 32])
        ensures
            bytes@ == self@,
    {
        self.0.to_bytes()
    }

    /// The bytes of the identifier, by value.
    pub fn into_bytes(self) -> (bytes: [u8; 32])
        ensures
            bytes@ == self@,
    {
        self.0.into_bytes()
    }

    /// The identifier with the given bytes.
    pub fn from_bytes(data: &[u8; 32]) -> (id: EndorsementId)
        ensures
            id@ == data@,
    {
        EndorsementId(crate::hash::Hash::from_bytes(data))
    }

    /// The identifier written as Base58Check text; fails unless `data` is
    /// well-formed Base58Check with a payload of exactly 32 bytes.
    pub fn from_bs58_check(data: &str) -> (out: Result<EndorsementId, ModelsError>)
        ensures
            match out {
                Ok(id) => bs58check_payload(data@) == Some(id@),
                Err(e) => e == ModelsError::HashError && !(bs58check_payload(data@) matches Some(
                    p,
                ) && p.len() == 32),
            },
    {
        match crate::hash::Hash::from_bs58_check(data) {
            Ok(hash) => Ok(EndorsementId(hash)),
            Err(_) => Err(ModelsError::HashError),
        }
    }

    /// The Base58Check text of the identifier.
    pub fn to_bs58_check(&self) -> (text: String)
        ensures
            text@ == bs58check_text(self@),
    {
        self.0.to_bs58_check()
    }
}

/// An endorsement, as sent over the network.
#[derive(Clone, Copy, Debug, PartialEq, Eq)]
pub struct Endorsement {
    /// Slot of the endorsed block.
    pub slot: Slot,
    /// Index of the endorsement inside the block that carries it.
    pub index: u32,
    /// Identifier of the endorsed block.
    pub endorsed_block: BlockId,
}

/// What an endorsement says.
pub struct EndorsementView {
    pub slot: Slot,
    pub index: u32,
    pub endorsed_block: Seq<u8>,
}

impl View for Endorsement {
    type V = EndorsementView;

    open spec fn view(&self) -> EndorsementView {
        EndorsementView {
            slot: self.slot,
            index: self.index,
            endorsed_block: self.endorsed_block@,
        }
    }
}

/// The bytes of an endorsement.
pub open spec fn endorsement_encoding(e: EndorsementView) -> Seq<u8> {
    slot_encoding(e.slot) + varint_encoding(e.index as nat) + e.endorsed_block
}

/// Whether a reader for `thread_count` threads and `endorsement_count`
/// endorsements per block accepts `e`.
pub open spec fn endorsement_in_range(
    e: EndorsementView,
    thread_count: u8,
    endorsement_count: u32,
) -> bool {
    e.slot.thread < thread_count && e.index < endorsement_count && e.endorsed_block.len() == 32
}

/// The endorsement at the start of `bytes` and the number of bytes it
/// occupies, or the part that a reader rejects.
pub open spec fn endorsement_parse(bytes: Seq<u8>, thread_count: u8, endorsement_count: u32) -> Result<
    (EndorsementView, nat),
    DeserializeError,
> {
    match slot_parse(bytes, thread_count) {
        None => Err(DeserializeError::Slot),
        Some((slot, slot_len)) => match varint_parse_bounded(
            bytes.skip(slot_len as int),
            u32::MAX as nat,
        ) {
            None => Err(DeserializeError::Index),
            Some((index, index_len)) => if index >= endorsement_count {
                Err(DeserializeError::Index)
            } else if bytes.len() < slot_len + index_len + 32 {
                Err(DeserializeError::Hash)
            } else {
                Ok(
                    (
                        EndorsementView {
                            slot,
                            index: index as u32,
                            endorsed_block: bytes.subrange(
                                (slot_len + index_len) as int,
                                (slot_len + index_len + 32) as int,
                            ),
                        },
                        slot_len + index_len + 32,
                    ),
                )
            },
        },
    }
}

/// Reading an encoded endorsement gives the endorsement back, whatever
/// follows it.
pub proof fn lemma_endorsement_parse_of_encoding(
    e: EndorsementView,
    thread_count: u8,
    endorsement_count: u32,
    rest: Seq<u8>,
)
    requires
        endorsement_in_range(e, thread_count, endorsement_count),
    ensures
        endorsement_parse(endorsement_encoding(e) + rest, thread_count, endorsement_count) == Ok::<
            (EndorsementView, nat),
            DeserializeError,
        >((e, endorsement_encoding(e).len())),
{
    let slot = slot_encoding(e.slot);
    let index = varint_encoding(e.index as nat);
    let all = endorsement_encoding(e) + rest;
    assert(all =~= slot + (index + e.endorsed_block + rest));
    lemma_slot_parse_of_encoding(e.slot, thread_count, index + e.endorsed_block + rest);
    assert(all.skip(slot.len() as int) =~= index + (e.endorsed_block + rest));
    lemma_parse_of_encoding(e.index as nat, e.endorsed_block + rest);
    assert(all.subrange((slot.len() + index.len()) as int, (slot.len() + index.len() + 32) as int)
        =~= e.endorsed_block);
}

/// Encoding an endorsement that was read gives the bytes that were read:
/// the accepted byte strings are exactly the encodings.
pub proof fn lemma_endorsement_encoding_of_parse(
    bytes: Seq<u8>,
    thread_count: u8,
    endorsement_count: u32,
)
    ensures
        match endorsement_parse(bytes, thread_count, endorsement_count) {
            Ok((e, used)) => used <= bytes.len() && endorsement_in_range(
                e,
                thread_count,
                endorsement_count,
            ) && endorsement_encoding(e) == bytes.subrange(0, used as int),
            Err(_) => true,
        },
{
    lemma_slot_encoding_of_parse(bytes, thread_count);
    match slot_parse(bytes, thread_count) {
        None => {},
        Some((slot, slot_len)) => {
            let after = bytes.skip(slot_len as int);
            lemma_encoding_of_parse(after);
            lemma_parse_bounds(after);
            match endorsement_parse(bytes, thread_count, endorsement_count) {
                Ok((e, used)) => {
                    let index_len = (used - slot_len - 32) as nat;
                    assert(after.subrange(0, index_len as int) =~= bytes.subrange(
                        slot_len as int,
                        (slot_len + index_len) as int,
                    ));
                    assert(endorsement_encoding(e) =~= bytes.subrange(0, used as int));
                },
                Err(_) => {},
            }
        },
    }
}

/// Copies the first 32 bytes of `buffer` into a hash.
pub fn read_hash(buffer: &[u8]) -> (out: Option<(&[u8], crate::hash::Hash)>)
    ensures
        match out {
            Some((rest, hash)) => buffer@.len() >= 32 && hash@ == buffer@.subrange(0, 32) && rest@
                == buffer@.skip(32),
            None => buffer@.len() < 32,
        },
{
    if buffer.len() < 32 {
        return None;
    }
    let mut bytes: [u8; 32] = [0u8; 32];
    let mut i: usize = 0;
    while i < 32
        invariant
            i <= 32,
            buffer@.len() >= 32,
            forall|j: int| 0 <= j < i ==> bytes@[j] == buffer@[j],
        decreases 32 - i,
    {
        bytes[i] = buffer[i];
        i += 1;
    }
    let hash = crate::hash::Hash::from_bytes(&bytes);
    assert(hash@ =~= buffer@.subrange(0, 32));
    let rest = slice_subrange(buffer, 32, buffer.len());
    assert(rest@ =~= buffer@.skip(32));
    Some((rest, hash))
}

/// Appends the bytes of `hash` to `buffer`.
pub fn write_hash(hash: &crate::hash::Hash, buffer: &mut Vec<u8>)
    ensures
        final(buffer)@ == old(buffer)@ + hash@,
{
    let bytes = hash.to_bytes();
    let mut i: usize = 0;
    while i < 32
        invariant
            i <= 32,
            bytes@.len() == 32,
            buffer@ == old(buffer)@ + bytes@.subrange(0, i as int),
        decreases 32 - i,
    {
        buffer.push(bytes[i]);
        assert(bytes@.subrange(0, i + 1) =~= bytes@.subrange(0, i as int).push(bytes@[i as int]));
        i += 1;
    }
    assert(bytes@.subrange(0, 32) =~= bytes@);
}

/// Writes endorsements.
#[derive(Clone, Copy, Debug)]
pub struct EndorsementSerializer {}

impl EndorsementSerializer {
    /// A writer of endorsements.
    pub fn new() -> (serializer: EndorsementSerializer) {
        EndorsementSerializer {  }
    }

    /// Appends the bytes of `value` to `buffer`.
    pub fn serialize(&self, value: &Endorsement, buffer: &mut Vec<u8>)
        ensures
            final(buffer)@ == old(buffer)@ + endorsement_encoding(value@),
    {
        value.slot.serialize(buffer);
        write_varint(value.index as u64, buffer);
        write_hash(&value.endorsed_block.0, buffer);
        assert(buffer@ =~= old(buffer)@ + endorsement_encoding(value@));
    }
}

impl Default for EndorsementSerializer {
    fn default() -> (serializer: EndorsementSerializer) {
        EndorsementSerializer::new()
    }
}

/// Reads endorsements for a given number of threads and of endorsements per
/// block.
#[derive(Clone, Copy, Debug)]
pub struct EndorsementDeserializer {
    thread_count: u8,
    endorsement_count: u32,
}

impl EndorsementDeserializer {
    /// A reader that accepts threads below `thread_count` and indices below
    /// `endorsement_count`.
    pub fn new(thread_count: u8, endorsement_count: u32) -> (deserializer: EndorsementDeserializer)
        ensures
            deserializer.thread_count() == thread_count,
            deserializer.endorsement_count() == endorsement_count,
    {
        EndorsementDeserializer { thread_count, endorsement_count }
    }

    /// The number of threads the reader was made for.
    pub closed spec fn thread_count(&self) -> u8 {
        self.thread_count
    }

    /// The number of endorsements per block the reader was made for.
    pub closed spec fn endorsement_count(&self) -> u32 {
        self.endorsement_count
    }

    /// Reads one endorsement from the start of `buffer` and returns it with
    /// the bytes that follow it, or says which part is rejected.
    pub fn deserialize<'a>(&self, buffer: &'a [u8]) -> (out: Result<
        (&'a [u8], Endorsement),
        DeserializeError,
    >)
        ensures
            match out {
                Ok((rest, e)) => endorsement_parse(
                    buffer@,
                    self.thread_count(),
                    self.endorsement_count(),
                ) matches Ok((v, used)) && v == e@ && rest@ == buffer@.skip(used as int),
                Err(kind) => endorsement_parse(
                    buffer@,
                    self.thread_count(),
                    self.endorsement_count(),
                ) == Err::<(EndorsementView, nat), DeserializeError>(kind),
            },
    {
        let (after_slot, slot) = match Slot::deserialize(buffer, self.thread_count) {
            Ok(pair) => pair,
            Err(_) => {
                return Err(DeserializeError::Slot);
            },
        };
        let (index, index_len) = match read_varint(after_slot, u32::MAX as u64) {
            Some(pair) => pair,
            None => {
                return Err(DeserializeError::Index);
            },
        };
        if index >= self.endorsement_count as u64 {
            return Err(DeserializeError::Index);
        }
        let after_index = slice_subrange(after_slot, index_len, after_slot.len());
        let ghost slot_len = (buffer@.len() - after_slot@.len()) as nat;
        assert(after_index@ =~= buffer@.skip((slot_len + index_len) as int));
        match read_hash(after_index) {
            None => Err(DeserializeError::Hash),
            Some((rest, hash)) => {
                assert(hash@ =~= buffer@.subrange(
                    (slot_len + index_len) as int,
                    (slot_len + index_len + 32) as int,
                ));
                assert(rest@ =~= buffer@.skip((slot_len + index_len + 32) as int));
                Ok((rest, Endorsement { slot, index: index as u32, endorsed_block: BlockId(hash) }))
            },
        }
    }
}

} // verus!

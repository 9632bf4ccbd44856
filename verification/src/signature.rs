//! Keys and signatures: Ed25519 over byte strings.

use vstd::prelude::*;

verus! {

/// The Ed25519 public key of a 32-byte secret key.
pub uninterp spec fn ed25519_public_key(secret: Seq<u8>) -> Seq<u8>;

/// The Ed25519 signature of `message` under a 32-byte secret key; signing
/// draws no randomness.
pub uninterp spec fn ed25519_signature(secret: Seq<u8>, message: Seq<u8>) -> Seq<u8>;

/// Whether `signature` is accepted for `message` under `public`; false
/// where `public` is not the encoding of a curve point.
pub uninterp spec fn ed25519_verifies(public: Seq<u8>, message: Seq<u8>, signature: Seq<u8>) -> bool;

/// Calls `SigningKey::from_bytes(..).verifying_key().to_bytes()` of
/// `ed25519_dalek`.  Trusted: the result is the public key of `secret`.
#[verifier::external_body]
fn ed25519_derive(secret: &[u8; 32]) -> (public: [u8; 32])
    ensures
        public@ == ed25519_public_key(secret@),
{
    ed25519_dalek::SigningKey::from_bytes(secret).verifying_key().to_bytes()
}

/// Calls `Signer::sign` of `ed25519_dalek` on the signing key made of
/// `secret`.  Trusted: the result is the signature of `message`.
#[verifier::external_body]
fn ed25519_sign(secret: &[u8; 32], message: &[u8]) -> (signature: [u8; 64])
    ensures
        signature@ == ed25519_signature(secret@, message@),
{
    let key = ed25519_dalek::SigningKey::from_bytes(secret);
    ed25519_dalek::Signer::sign(&key, message).to_bytes()
}

/// Calls `VerifyingKey::from_bytes` and `Verifier::verify` of
/// `ed25519_dalek`.  Trusted: the result says whether the signature is
/// accepted; a key that does not decode accepts nothing.
#[verifier::external_body]
fn ed25519_verify(public: &[u8; 32], message: &[u8], signature: &[u8; 64]) -> (accepted: bool)
    ensures
        accepted == ed25519_verifies(public@, message@, signature@),
{
    match ed25519_dalek::VerifyingKey::from_bytes(public) {
        Ok(key) => ed25519_dalek::Verifier::verify(
            &key,
            message,
            &ed25519_dalek::Signature::from_bytes(signature),
        ).is_ok(),
        Err(_) => false,
    }
}

/// A public key.
#[derive(Clone, Copy, Debug, PartialEq, Eq, PartialOrd, Ord, Hash)]
pub struct PublicKey(pub [u8; 32]);

/// A secret key.
#[derive(Clone, Copy, Debug, PartialEq, Eq)]
pub struct PrivateKey(pub [u8; 32]);

/// A signature.
#[derive(Clone, Copy, Debug, PartialEq, Eq)]
pub struct Signature(pub [u8; 64]);

impl View for PublicKey {
    type V = Seq<u8>;

    open spec fn view(&self) -> Seq<u8> {
        self.0@
    }
}

impl View for PrivateKey {
    type V = Seq<u8>;

    open spec fn view(&self) -> Seq<u8> {
        self.0@
    }
}

impl View for Signature {
    type V = Seq<u8>;

    open spec fn view(&self) -> Seq<u8> {
        self.0@
    }
}

impl PublicKey {
    /// Whether two keys are the same.
    pub fn same(&self, other: &PublicKey) -> (same: bool)
        ensures
            same == (*self == *other),
            same == (self@ == other@),
    {
        let same = crate::hash::bytes32_eq(&self.0, &other.0);
        proof {
            if same {
                assert(self.0 =~= other.0);
            }
        }
        same
    }
}

/// Derives keys, signs and verifies.
#[derive(Clone, Copy, Debug)]
pub struct SignatureEngine {}

impl SignatureEngine {
    /// An engine.
    pub fn new() -> (engine: SignatureEngine) {
        SignatureEngine {  }
    }

    /// The public key of `private_key`.
    pub fn derive_public_key(&self, private_key: &PrivateKey) -> (public_key: PublicKey)
        ensures
            public_key@ == ed25519_public_key(private_key@),
    {
        PublicKey(ed25519_derive(&private_key.0))
    }

    /// The signature of `message` under `private_key`.
    pub fn sign(&self, message: &[u8], private_key: &PrivateKey) -> (signature: Signature)
        ensures
            signature@ == ed25519_signature(private_key@, message@),
    {
        Signature(ed25519_sign(&private_key.0, message))
    }

    /// Whether `signature` is accepted for `message` under `public_key`.
    pub fn verify(&self, message: &[u8], signature: &Signature, public_key: &PublicKey) -> (accepted:
        bool)
        ensures
            accepted == ed25519_verifies(public_key@, message@, signature@),
    {
        ed25519_verify(&public_key.0, message, &signature.0)
    }
}

} // verus!

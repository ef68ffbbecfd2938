//! A node's signing identity: an Ed25519 key pair.

use vstd::prelude::*;
use ed25519_dalek::Signer;
use ed25519_dalek::Verifier;

verus! {

/// The Ed25519 public key of a secret key.
pub uninterp spec fn ed25519_public(secret: Seq<u8>) -> Seq<u8>;

/// The Ed25519 signature (RFC 8032, deterministic) of `message` under `secret`.
pub uninterp spec fn ed25519_signature(secret: Seq<u8>, message: Seq<u8>) -> Seq<u8>;

/// Whether Ed25519 verification accepts `signature` of `message` under the
/// public key `public`.
pub uninterp spec fn ed25519_valid(public: Seq<u8>, message: Seq<u8>, signature: Seq<u8>) -> bool;

/// `VerifyingKey::from_bytes` then `Verifier::verify`: whether `signature`
/// of `message` holds under `public`; bytes that are no public key are
/// refused. As RFC 8032 and the crate document, a signature made with a
/// secret key verifies under that key's public key.
#[verifier::external_body]
pub(crate) fn ed25519_verify(public: &[u8; 32], message: &[u8], signature: &[u8; 64]) -> (r: bool)
    ensures
        r == ed25519_valid(public@, message@, signature@),
        forall|secret: Seq<u8>|
            secret.len() == 32 && public@ == #[trigger] ed25519_public(secret) && signature@ == ed25519_signature(
                secret,
                message@,
            ) ==> r,
{
    match ed25519_dalek::VerifyingKey::from_bytes(public) {
        Ok(key) => key.verify(message, &ed25519_dalek::Signature::from_bytes(signature)).is_ok(),
        Err(_) => false,
    }
}

/// `SigningKey::generate(&mut OsRng)`: a random secret key. Nothing is
/// claimed of its value.
#[verifier::external_body]
fn random_signing_secret() -> (r: [u8; 32]) {
    ed25519_dalek::SigningKey::generate(&mut rand::rngs::OsRng).to_bytes()
}

/// `SigningKey::verifying_key`: the public key of `secret`, as bytes.
#[verifier::external_body]
fn ed25519_public_key(secret: &[u8; 32]) -> (r: [u8; 32])
    ensures
        r@ == ed25519_public(secret@),
{
    ed25519_dalek::SigningKey::from_bytes(secret).verifying_key().to_bytes()
}

/// `Signer::sign` of `SigningKey`: the signature of `message`, as bytes.
#[verifier::external_body]
fn ed25519_sign(secret: &[u8; 32], message: &[u8]) -> (r: [u8; 64])
    ensures
        r@ == ed25519_signature(secret@, message@),
{
    ed25519_dalek::SigningKey::from_bytes(secret).sign(message).to_bytes()
}

/// A node's identity.
pub struct NodeIdentity {
    keypair: [u8; 32],
}

impl NodeIdentity {
    pub closed spec fn secret_key(&self) -> Seq<u8> {
        self.keypair@
    }

    /// A fresh random identity.
    pub fn new() -> (n: Self)
        ensures
            n.secret_key().len() == 32,
    {
        NodeIdentity { keypair: random_signing_secret() }
    }

    /// The public key others verify our signatures with.
    pub fn get_public_key(&self) -> (r: [u8; 32])
        ensures
            r@ == ed25519_public(self.secret_key()),
    {
        ed25519_public_key(&self.keypair)
    }

    /// Our signature of `message`.
    pub fn sign(&self, message: &[u8]) -> (r: [u8; 64])
        ensures
            r@ == ed25519_signature(self.secret_key(), message@),
    {
        ed25519_sign(&self.keypair, message)
    }
}

} // verus!

//! Sealed boxes: a sender with a fresh X25519 key agrees a key with the
//! recipient's public key and encrypts under ChaCha20-Poly1305 with a random
//! nonce; the recipient, holding a long-term X25519 key, agrees the same key
//! from the sender's public key and decrypts.

use vstd::prelude::*;
use chacha20poly1305::aead::{Aead, AeadCore, KeyInit};

verus! {

/// The X25519 public key of a secret key.
pub uninterp spec fn x25519_public(secret: Seq<u8>) -> Seq<u8>;

/// The X25519 shared secret of a secret key and another party's public key.
pub uninterp spec fn x25519_shared(secret: Seq<u8>, their_public: Seq<u8>) -> Seq<u8>;

/// ChaCha20-Poly1305 encryption (no associated data): ciphertext and tag,
/// or `None` when the message is too long for the cipher.
pub uninterp spec fn chacha20poly1305_seal(key: Seq<u8>, nonce: Seq<u8>, plaintext: Seq<u8>) -> Option<Seq<u8>>;

/// ChaCha20-Poly1305 decryption (no associated data): the plaintext, or
/// `None` when the tag does not verify.
pub uninterp spec fn chacha20poly1305_open(key: Seq<u8>, nonce: Seq<u8>, ciphertext: Seq<u8>) -> Option<Seq<u8>>;

/// Messages short enough for ChaCha20's 32-bit block counter: fewer than
/// 2^32 - 1 whole 64-byte blocks.
pub open spec fn sealable(len: nat) -> bool {
    len / 64 < 0xffff_ffff
}

/// Message lengths whose keystream would run past ChaCha20's last block:
/// block 0 keys the MAC, so a message of `2^32 - 2` whole blocks and a part
/// block needs one block more than the counter has left.
pub open spec fn overruns_keystream(len: nat) -> bool {
    0x3F_FFFF_FF80 < len < 0x3F_FFFF_FFC0
}

/// Messages this library seals: short enough for the cipher and for its
/// keystream.
pub open spec fn encryptable(len: nat) -> bool {
    sealable(len) && !overruns_keystream(len)
}

/// A sealed message whose body (all but the 16-byte tag) would overrun the
/// keystream.
pub open spec fn body_overruns(ciphertext_len: nat) -> bool {
    ciphertext_len >= 16 && overruns_keystream((ciphertext_len - 16) as nat)
}

/// The contents of an optional buffer.
pub open spec fn opt_view(o: Option<Vec<u8>>) -> Option<Seq<u8>> {
    match o {
        Some(v) => Some(v@),
        None => None,
    }
}

/// `x25519_dalek::StaticSecret::random_from_rng(OsRng)`: 32 random bytes
/// from the operating system. Nothing is claimed of their value.
#[verifier::external_body]
fn random_x25519_secret() -> (r: [u8; 32]) {
    x25519_dalek::StaticSecret::random_from_rng(rand::rngs::OsRng).to_bytes()
}

/// `ChaCha20Poly1305::generate_nonce(OsRng)`: 12 random bytes. Nothing is
/// claimed of their value.
#[verifier::external_body]
fn random_nonce() -> (r: [u8; 12]) {
    chacha20poly1305::ChaCha20Poly1305::generate_nonce(rand::rngs::OsRng).into()
}

/// `x25519_dalek::PublicKey::from(&StaticSecret)`: the public key of
/// `secret`, as bytes.
#[verifier::external_body]
fn x25519_public_key(secret: &[u8; 32]) -> (r: [u8; 32])
    ensures
        r@ == x25519_public(secret@),
{
    x25519_dalek::PublicKey::from(&x25519_dalek::StaticSecret::from(*secret)).to_bytes()
}

/// `StaticSecret::diffie_hellman`: the shared secret of `secret` and
/// `their_public`. As the crate documents, both sides agree: if
/// `their_public` is the public key of some secret `other`, the result is
/// what `other` computes with our public key.
#[verifier::external_body]
fn x25519_agree(secret: &[u8; 32], their_public: &[u8; 32]) -> (r: [u8; 32])
    ensures
        r@ == x25519_shared(secret@, their_public@),
        forall|other: Seq<u8>|
            other.len() == 32 && their_public@ == #[trigger] x25519_public(other) ==> r@ == x25519_shared(
                other,
                x25519_public(secret@),
            ),
{
    let theirs = x25519_dalek::PublicKey::from(*their_public);
    x25519_dalek::StaticSecret::from(*secret).diffie_hellman(&theirs).to_bytes()
}

/// `Aead::encrypt` of `ChaCha20Poly1305` keyed with `key`: the ciphertext
/// followed by the 16-byte tag. The cipher refuses exactly the messages of
/// `2^32 - 1` or more whole blocks, which its block counter cannot reach.
/// The lengths just below that bound whose keystream overruns the counter
/// make the call panic; they are left out.
#[verifier::external_body]
fn chacha_seal(key: &[u8; 32], nonce: &[u8; 12], plaintext: &[u8]) -> (r: Option<Vec<u8>>)
    requires
        !overruns_keystream(plaintext@.len()),
    ensures
        opt_view(r) == chacha20poly1305_seal(key@, nonce@, plaintext@),
        r is Some <==> sealable(plaintext@.len()),
        r matches Some(c) ==> c@.len() == plaintext@.len() + 16,
{
    let cipher = chacha20poly1305::ChaCha20Poly1305::new(key.into());
    cipher.encrypt(nonce.into(), plaintext).ok()
}

/// `Aead::decrypt` of `ChaCha20Poly1305` keyed with `key`: the plaintext,
/// or `None` when the tag does not verify. Decryption undoes encryption
/// under the same key and nonce. A ciphertext whose body would overrun the
/// keystream makes the call panic once its tag verifies; it is left out.
#[verifier::external_body]
fn chacha_open(key: &[u8; 32], nonce: &[u8], ciphertext: &[u8]) -> (r: Option<Vec<u8>>)
    requires
        nonce@.len() == 12,
        !body_overruns(ciphertext@.len()),
    ensures
        opt_view(r) == chacha20poly1305_open(key@, nonce@, ciphertext@),
        forall|m: Seq<u8>|
            #[trigger] chacha20poly1305_seal(key@, nonce@, m) == Some(ciphertext@) ==> opt_view(r) == Some(m),
{
    let cipher = chacha20poly1305::ChaCha20Poly1305::new(key.into());
    cipher.decrypt(chacha20poly1305::Nonce::from_slice(nonce), ciphertext).ok()
}

/// Why a sealed box could not be made or opened.
pub enum CryptoError {
    /// The cipher refused to encrypt the message.
    Encrypt,
    /// The tag did not verify: wrong key, or tampered data.
    Decrypt,
    /// A stored secret key is not 32 bytes long.
    CorruptKeyFile,
}

/// Whether a message of `len` bytes would overrun the keystream.
fn overruns(len: usize) -> (r: bool)
    ensures
        r == overruns_keystream(len as nat),
{
    let n = len as u64;
    0x3F_FFFF_FF80u64 < n && n < 0x3F_FFFF_FFC0u64
}

/// A sender's one-use key pair.
pub struct CryptoBox {
    secret: [u8; 32],
    public: [u8; 32],
}

impl CryptoBox {
    pub closed spec fn secret_key(&self) -> Seq<u8> {
        self.secret@
    }

    pub closed spec fn public_key(&self) -> Seq<u8> {
        self.public@
    }

    /// A fresh random key pair.
    pub fn new() -> (b: Self)
        ensures
            b.secret_key().len() == 32,
            b.public_key() == x25519_public(b.secret_key()),
    {
        let secret = random_x25519_secret();
        let public = x25519_public_key(&secret);
        CryptoBox { secret, public }
    }

    /// The public key to send along with the ciphertext.
    pub fn get_public_key_bytes(&self) -> (r: [u8; 32])
        ensures
            r@ == self.public_key(),
    {
        self.public
    }

    /// Encrypts `plaintext` for the holder of `peer_public_bytes`: the key is
    /// agreed between our secret and their public key, the nonce is random,
    /// and the nonce comes back with the ciphertext, which is the plaintext's
    /// length plus the 16-byte tag. A message too long for the cipher or its
    /// keystream is refused.
    pub fn encrypt(self, peer_public_bytes: &[u8; 32], plaintext: &[u8]) -> (r: Result<(Vec<u8>, Vec<u8>), CryptoError>)
        ensures
            r is Ok <==> encryptable(plaintext@.len()),
            r matches Ok((nonce, ciphertext)) ==> ciphertext@.len() == plaintext@.len() + 16,
            ({
                let key = x25519_shared(self.secret_key(), peer_public_bytes@);
                match r {
                    Ok((nonce, ciphertext)) => nonce@.len() == 12 && chacha20poly1305_seal(
                        key,
                        nonce@,
                        plaintext@,
                    ) == Some(ciphertext@),
                    Err(e) => e is Encrypt,
                }
            }),
    {
        if overruns(plaintext.len()) {
            return Err(CryptoError::Encrypt);
        }
        let shared = x25519_agree(&self.secret, peer_public_bytes);
        let nonce = random_nonce();
        match chacha_seal(&shared, &nonce, plaintext) {
            Some(ciphertext) => {
                let n = vstd::slice::slice_to_vec(vstd::array::array_as_slice(&nonce));
                Ok((n, ciphertext))
            },
            None => Err(CryptoError::Encrypt),
        }
    }
}

/// A recipient's long-term key.
pub struct Decryptor {
    secret: [u8; 32],
}

impl Decryptor {
    pub closed spec fn secret_key(&self) -> Seq<u8> {
        self.secret@
    }

    /// A fresh random key.
    pub fn generate() -> (d: Self)
        ensures
            d.secret_key().len() == 32,
    {
        Decryptor { secret: random_x25519_secret() }
    }

    /// The key stored in a key file: accepted exactly when it is 32 bytes.
    pub fn from_key_file(bytes: &[u8]) -> (r: Result<Self, CryptoError>)
        ensures
            bytes@.len() == 32 <==> r is Ok,
            r matches Ok(d) ==> d.secret_key() == bytes@,
            r matches Err(e) ==> e is CorruptKeyFile,
    {
        if bytes.len() != 32 {
            return Err(CryptoError::CorruptKeyFile);
        }
        let mut secret = [0u8; 32];
        let mut i: usize = 0;
        while i < 32
            invariant
                bytes@.len() == 32,
                i <= 32,
                forall|j: int| 0 <= j < i ==> secret@[j] == bytes@[j],
            decreases 32 - i,
        {
            secret[i] = bytes[i];
            i += 1;
        }
        assert(secret@ =~= bytes@);
        Ok(Decryptor { secret })
    }

    /// The key's bytes, for storing it.
    pub fn secret_bytes(&self) -> (r: [u8; 32])
        ensures
            r@ == self.secret_key(),
    {
        self.secret
    }

    /// Our public key, for senders.
    pub fn get_public_key_bytes(&self) -> (r: [u8; 32])
        ensures
            r@ == x25519_public(self.secret_key()),
    {
        x25519_public_key(&self.secret)
    }

    /// Decrypts what a sender with public key `sender_ephemeral_pk` sealed
    /// for us under `nonce_bytes`. What [`CryptoBox::encrypt`] sealed for
    /// our public key comes back as it was. A ciphertext whose body would
    /// overrun the keystream is refused.
    pub fn decrypt(&self, sender_ephemeral_pk: &[u8; 32], nonce_bytes: &[u8], ciphertext: &[u8]) -> (r: Result<Vec<u8>, CryptoError>)
        requires
            nonce_bytes@.len() == 12,
        ensures
            ({
                let key = x25519_shared(self.secret_key(), sender_ephemeral_pk@);
                match r {
                    Ok(p) => !body_overruns(ciphertext@.len()) && chacha20poly1305_open(
                        key,
                        nonce_bytes@,
                        ciphertext@,
                    ) == Some(p@),
                    Err(e) => e is Decrypt && (body_overruns(ciphertext@.len()) || chacha20poly1305_open(
                        key,
                        nonce_bytes@,
                        ciphertext@,
                    ) is None),
                }
            }),
            forall|sender: Seq<u8>, m: Seq<u8>|
                !body_overruns(ciphertext@.len()) && sender.len() == 32 && sender_ephemeral_pk@ == x25519_public(sender)
                    && #[trigger] chacha20poly1305_seal(
                    x25519_shared(sender, x25519_public(self.secret_key())),
                    nonce_bytes@,
                    m,
                ) == Some(ciphertext@) ==> (r matches Ok(p) && p@ == m),
    {
        if ciphertext.len() >= 16 && overruns(ciphertext.len() - 16) {
            return Err(CryptoError::Decrypt);
        }
        let shared = x25519_agree(&self.secret, sender_ephemeral_pk);
        match chacha_open(&shared, nonce_bytes, ciphertext) {
            Some(p) => Ok(p),
            None => Err(CryptoError::Decrypt),
        }
    }
}

} // verus!

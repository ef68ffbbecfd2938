use ed25519_dalek::Verifier;
use project_zero::crypto::{CryptoBox, CryptoError, Decryptor};
use project_zero::identity::NodeIdentity;
use project_zero::storage::{check_fetched, manifest_action, manifest_entry, StoreError, ZeroStore};

#[test]
fn cid_is_sha256_hex() {
    assert_eq!(
        ZeroStore::calculate_cid(b"hello"),
        "2cf24dba5fb0a30e26e83b2ac5b9e29e1b161e5c1fa7425e73043362938b9824"
    );
    assert_eq!(
        ZeroStore::calculate_cid(b""),
        "e3b0c44298fc1c149afbf4c8996fb92427ae41e4649b934ca495991b7852b855"
    );
}

#[test]
fn objects_are_sharded_by_first_two_chars() {
    let s = ZeroStore::new("./storage");
    assert_eq!(s.objects_path(), vec!["./storage".to_string(), "objects".to_string()]);
    assert_eq!(s.manifest_path(), vec!["./storage".to_string(), "manifest.log".to_string()]);
    let (dir, file) = s.get_paths("49a272e5");
    assert_eq!(dir, vec!["./storage".to_string(), "objects".to_string(), "49".to_string()]);
    assert_eq!(file, vec!["./storage".to_string(), "objects".to_string(), "49".to_string(), "49a272e5".to_string()]);
    assert_eq!(s.temp_path("ab"), vec!["./storage".to_string(), "objects".to_string(), "temp_ab.tmp".to_string()]);
}

#[test]
fn manifest_lines() {
    assert_eq!(
        manifest_entry("2023-11-20 17:30:00", "PUT", "49a2", 374),
        "[2023-11-20 17:30:00] PUT 49a2 (Size: 374b)\n"
    );
    assert_eq!(manifest_action(false), "PUT");
    assert_eq!(manifest_action(true), "DUP");
}

#[test]
fn fetched_bytes_must_match_their_id() {
    let cid = ZeroStore::calculate_cid(b"data");
    assert!(check_fetched(&cid, b"data").is_ok());
    match check_fetched(&cid, b"datA") {
        Err(StoreError::Corrupted) => {}
        _ => panic!("expected corruption"),
    }
}

#[test]
fn sealed_box_round_trip() {
    let recipient = Decryptor::generate();
    let sender = CryptoBox::new();
    let sender_pk = sender.get_public_key_bytes();
    let (nonce, ciphertext) = sender.encrypt(&recipient.get_public_key_bytes(), b"secret message").ok().unwrap();
    assert_eq!(nonce.len(), 12);
    assert_eq!(ciphertext.len(), b"secret message".len() + 16);
    assert_ne!(&ciphertext[..14], b"secret message");
    let plain = recipient.decrypt(&sender_pk, &nonce, &ciphertext).ok().unwrap();
    assert_eq!(plain, b"secret message".to_vec());
}

#[test]
fn tampered_box_is_refused() {
    let recipient = Decryptor::generate();
    let sender = CryptoBox::new();
    let sender_pk = sender.get_public_key_bytes();
    let (nonce, mut ciphertext) = sender.encrypt(&recipient.get_public_key_bytes(), b"hi").ok().unwrap();
    ciphertext[0] ^= 1;
    assert!(matches!(recipient.decrypt(&sender_pk, &nonce, &ciphertext), Err(CryptoError::Decrypt)));
    let other = Decryptor::generate();
    let (nonce2, ct2) = CryptoBox::new().encrypt(&recipient.get_public_key_bytes(), b"hi").ok().unwrap();
    assert!(matches!(other.decrypt(&sender_pk, &nonce2, &ct2), Err(CryptoError::Decrypt)));
}

#[test]
fn key_files_must_hold_32_bytes() {
    let d = Decryptor::generate();
    let bytes = d.secret_bytes();
    let back = Decryptor::from_key_file(&bytes).ok().unwrap();
    assert_eq!(back.secret_bytes(), bytes);
    assert_eq!(back.get_public_key_bytes(), d.get_public_key_bytes());
    assert!(matches!(Decryptor::from_key_file(&[1u8; 31]), Err(CryptoError::CorruptKeyFile)));
    assert!(matches!(Decryptor::from_key_file(&[1u8; 33]), Err(CryptoError::CorruptKeyFile)));
}

#[test]
fn public_keys_match_x25519() {
    let d = Decryptor::from_key_file(&[9u8; 32]).ok().unwrap();
    let expected = x25519_dalek::PublicKey::from(&x25519_dalek::StaticSecret::from([9u8; 32])).to_bytes();
    assert_eq!(d.get_public_key_bytes(), expected);
    assert_ne!(d.get_public_key_bytes(), [9u8; 32]);
}

#[test]
fn signatures_verify_under_the_public_key() {
    let me = NodeIdentity::new();
    let pk = me.get_public_key();
    let sig = me.sign(b"packet");
    let vk = ed25519_dalek::VerifyingKey::from_bytes(&pk).unwrap();
    let s = ed25519_dalek::Signature::from_bytes(&sig);
    assert!(vk.verify(b"packet", &s).is_ok());
    assert!(vk.verify(b"packeT", &s).is_err());
    // signing is deterministic
    assert_eq!(me.sign(b"packet"), sig);
}

#[test]
fn empty_message_seals_to_a_bare_tag() {
    let recipient = Decryptor::generate();
    let sender = CryptoBox::new();
    let sender_pk = sender.get_public_key_bytes();
    let (nonce, ciphertext) = sender.encrypt(&recipient.get_public_key_bytes(), b"").ok().unwrap();
    assert_eq!(ciphertext.len(), 16);
    assert_eq!(recipient.decrypt(&sender_pk, &nonce, &ciphertext).ok().unwrap(), Vec::<u8>::new());
}

#[test]
fn computed_ids_name_their_shard() {
    let s = ZeroStore::new("./storage");
    let cid = ZeroStore::calculate_cid(b"hello");
    assert_eq!(cid.len(), 64);
    let (dir, _) = s.get_paths(&cid);
    assert_eq!(dir[2], "2c");
}

use chacha20poly1305::aead::{Aead, KeyInit};
use chacha20poly1305::{XChaCha20Poly1305, XNonce};
use encrypt::crypto::key::simple_encrypt_with_nonce;
use encrypt::crypto::{
    create_nonce, random_name, simple_decrypt_data, simple_encrypt_data, CryptoError, SecureKey,
};

#[test]
fn key_keeps_its_bytes() {
    let mut bytes = [0u8; 32];
    for (i, b) in bytes.iter_mut().enumerate() {
        *b = i as u8;
    }
    assert_eq!(SecureKey::new(bytes).as_bytes(), &bytes);
}

#[test]
fn generated_keys_differ() {
    let a = SecureKey::generate();
    let b = SecureKey::generate();
    assert_ne!(a.as_bytes(), b.as_bytes());
    assert_ne!(a.as_bytes(), &[0u8; 32]);
}

#[test]
fn random_names_are_alphanumeric() {
    assert_eq!(random_name(0), "");
    let name = random_name(16);
    assert_eq!(name.len(), 16);
    assert!(name.bytes().all(|b| b.is_ascii_alphanumeric()));
    assert_ne!(name, random_name(16));
}

#[test]
fn nonce_is_salt_and_counter() {
    let salt = *b"0123456789abcdef";
    let nonce = create_nonce(&salt, 0x0102030405060708);
    assert_eq!(&nonce[..16], &salt);
    assert_eq!(&nonce[16..], &[1, 2, 3, 4, 5, 6, 7, 8]);
    assert_eq!(&create_nonce(&salt, 0)[16..], &[0u8; 8]);
}

#[test]
fn nonces_of_different_blocks_differ() {
    let salt = [7u8; 16];
    assert_ne!(create_nonce(&salt, 1), create_nonce(&salt, 256));
    assert_ne!(create_nonce(&salt, 0), create_nonce(&salt, u64::MAX));
}

#[test]
fn simple_roundtrip() {
    let key = SecureKey::generate();
    let sealed = simple_encrypt_data(b"some data", &key).unwrap();
    assert_eq!(sealed.len(), 24 + 9 + 16);
    assert_eq!(simple_decrypt_data(&sealed, &key).unwrap(), b"some data");
    let empty = simple_encrypt_data(b"", &key).unwrap();
    assert_eq!(simple_decrypt_data(&empty, &key).unwrap(), b"");
}

#[test]
fn simple_sealing_is_the_cipher_behind_its_nonce() {
    let key = SecureKey::new([3u8; 32]);
    let nonce = [9u8; 24];
    let sealed = simple_encrypt_with_nonce(b"message", &key, &nonce).unwrap();
    let cipher = XChaCha20Poly1305::new(&[3u8; 32].into());
    let expected = cipher.encrypt(XNonce::from_slice(&nonce), &b"message"[..]).unwrap();
    assert_eq!(&sealed[..24], &nonce);
    assert_eq!(&sealed[24..], &expected[..]);
}

#[test]
fn simple_sealing_draws_new_nonces() {
    let key = SecureKey::new([1u8; 32]);
    let a = simple_encrypt_data(b"same", &key).unwrap();
    let b = simple_encrypt_data(b"same", &key).unwrap();
    assert_ne!(a[..24], b[..24]);
}

#[test]
fn short_data_is_refused() {
    let key = SecureKey::new([1u8; 32]);
    assert!(matches!(simple_decrypt_data(&[0u8; 23], &key), Err(CryptoError::DataTooShort)));
    assert!(matches!(simple_decrypt_data(&[0u8; 24], &key), Err(CryptoError::DecryptData)));
}

#[test]
fn changed_data_and_other_keys_are_refused() {
    let key = SecureKey::generate();
    let mut sealed = simple_encrypt_data(b"data", &key).unwrap();
    let other = SecureKey::generate();
    assert!(matches!(simple_decrypt_data(&sealed, &other), Err(CryptoError::DecryptData)));
    sealed[30] ^= 1;
    assert!(matches!(simple_decrypt_data(&sealed, &key), Err(CryptoError::DecryptData)));
}

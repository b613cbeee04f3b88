use argon2::password_hash::{PasswordHasher, SaltString};
use argon2::{Algorithm, Argon2, Params, Version};
use encrypt::crypto::key::simple_encrypt_with_nonce;
use encrypt::crypto::keyfile::{
    argon2_params, derived_key, key_file, master_key, protect_key_with_salt, split_key_file,
};
use encrypt::crypto::{
    protect_key_with_password, recover_key_from_password, CryptoError, SecureKey,
};

const SALT: &str = "c29tZXNhbHRzb21lc2FsdA";

fn derived(password: &str) -> [u8; 32] {
    let params = Params::new(65536, 4, 4, None).unwrap();
    let salt = SaltString::from_b64(SALT).unwrap();
    let hash = Argon2::new(Algorithm::Argon2id, Version::V0x13, params)
        .hash_password(password.as_bytes(), &salt)
        .unwrap();
    let mut key = [0u8; 32];
    key.copy_from_slice(hash.hash.unwrap().as_bytes());
    key
}

#[test]
fn costs_are_fixed() {
    assert!(matches!(argon2_params(), Ok((65536, 4, 4))));
}

#[test]
fn key_comes_back_with_the_password() {
    let key = SecureKey::generate();
    let file = protect_key_with_password(&key, "correct horse").unwrap();
    assert_eq!(file.len(), 4 + 22 + 24 + 32 + 16);
    assert_eq!(&file[..4], &[22, 0, 0, 0]);
    let back = recover_key_from_password(&file, "correct horse").unwrap();
    assert_eq!(back.as_bytes(), key.as_bytes());
}

#[test]
fn wrong_password_is_refused() {
    let key = SecureKey::new([8u8; 32]);
    let file = protect_key_with_salt(&key, "right", SALT, &[1u8; 24]).unwrap();
    match recover_key_from_password(&file, "wrong") {
        Err(e) => {
            assert!(matches!(e, CryptoError::KeyRejected));
            assert_eq!(e.message(), "Wrong password or corrupted key");
        }
        Ok(_) => panic!("recovered"),
    }
}

#[test]
fn key_file_is_laid_out_as_described() {
    let key = SecureKey::new([8u8; 32]);
    let file = protect_key_with_salt(&key, "pass", SALT, &[1u8; 24]).unwrap();
    let sealed =
        simple_encrypt_with_nonce(&[8u8; 32], &SecureKey::new(derived("pass")), &[1u8; 24]).unwrap();
    let mut expected = vec![22, 0, 0, 0];
    expected.extend_from_slice(SALT.as_bytes());
    expected.extend_from_slice(&sealed);
    assert_eq!(file, expected);
}

#[test]
fn salts_are_drawn_anew() {
    let key = SecureKey::new([8u8; 32]);
    let a = protect_key_with_password(&key, "p").unwrap();
    let b = protect_key_with_password(&key, "p").unwrap();
    assert_ne!(a[4..26], b[4..26]);
    assert_ne!(a[26..50], b[26..50]);
}

#[test]
fn malformed_key_files_are_refused() {
    let fails = |file: &[u8]| match recover_key_from_password(file, "p") {
        Err(e) => e,
        Ok(_) => panic!("recovered"),
    };
    assert!(matches!(fails(&[1, 0, 0]), CryptoError::InvalidKeyFile));
    assert!(matches!(fails(&[0, 0, 0, 0, 1, 2]), CryptoError::InvalidSaltLength));
    assert!(matches!(fails(&[129, 0, 0, 0]), CryptoError::InvalidSaltLength));
    assert!(matches!(fails(&[128, 0, 0, 0]), CryptoError::KeyFileTruncated));
    assert!(matches!(fails(&[3, 0, 0, 0, 1, 2]), CryptoError::KeyFileTruncated));
    assert!(matches!(fails(&[2, 0, 0, 0, 0xff, 0xff]), CryptoError::SaltNotUtf8(_)));
    assert!(matches!(fails(&[3, 0, 0, 0, b'a', b'b', b'c']), CryptoError::InvalidSalt(_)));
    assert!(matches!(fails(b"\x05\x00\x00\x00ab_cd"), CryptoError::InvalidSalt(_)));
}

#[test]
fn malformed_key_files_have_messages() {
    let text = |file: &[u8]| match recover_key_from_password(file, "p") {
        Err(e) => e.message(),
        Ok(_) => panic!("recovered"),
    };
    assert_eq!(text(&[]), "Invalid key file format");
    assert_eq!(text(&[0, 0, 0, 0]), "Invalid salt length");
    assert_eq!(text(&[9, 0, 0, 0]), "Key file truncated");
    let utf8 = std::str::from_utf8(&[0xff, 0xff]).unwrap_err().to_string();
    assert_eq!(text(&[2, 0, 0, 0, 0xff, 0xff]), utf8);
    let salt = SaltString::from_b64("abc").unwrap_err().to_string();
    assert_eq!(text(&[3, 0, 0, 0, b'a', b'b', b'c']), format!("Invalid salt: {}", salt));
}

#[test]
fn salt_that_cannot_be_decoded_counts_as_a_wrong_password() {
    let mut file = vec![5, 0, 0, 0];
    file.extend_from_slice(b"aaaaa");
    file.extend_from_slice(&[0u8; 72]);
    assert!(matches!(recover_key_from_password(&file, "p"), Err(CryptoError::WrongPassword)));
}

#[test]
fn sealed_key_of_another_length_is_refused() {
    let short =
        simple_encrypt_with_nonce(b"not a key", &SecureKey::new(derived("pass")), &[2u8; 24]).unwrap();
    let file = key_file(SALT.as_bytes(), &short);
    assert!(matches!(recover_key_from_password(&file, "pass"), Err(CryptoError::InvalidKeyLength)));
    let cut = key_file(SALT.as_bytes(), &short[..10]);
    assert!(matches!(recover_key_from_password(&cut, "pass"), Err(CryptoError::KeyRejected)));
}

#[test]
fn parts_of_a_key_file_come_back() {
    let file = key_file(b"salt", b"sealed");
    assert_eq!(file, b"\x04\x00\x00\x00saltsealed");
    assert_eq!(split_key_file(&file).unwrap(), (&b"salt"[..], &b"sealed"[..]));
}

#[test]
fn results_of_the_derivation_are_judged() {
    assert_eq!(derived_key(Some(vec![4u8; 40])).unwrap().as_bytes(), &[4u8; 32]);
    assert!(matches!(derived_key(None), Err(CryptoError::KdfEmpty)));
    assert_eq!(master_key(Ok(vec![4u8; 32])).unwrap().as_bytes(), &[4u8; 32]);
    assert!(matches!(master_key(Ok(vec![4u8; 33])), Err(CryptoError::InvalidKeyLength)));
    assert!(matches!(master_key(Err(CryptoError::DecryptData)), Err(CryptoError::KeyRejected)));
}

//! Keys, ciphers, the container format and the key file format.

pub mod container;
pub mod decryptor;
pub mod encryptor;
pub mod error;
pub mod key;
pub mod keyfile;
pub mod primitives;

pub use container::{CHUNK_SIZE, CHUNK_TYPE_DATA, CHUNK_TYPE_EOF};
pub use decryptor::StreamDecryptor;
pub use encryptor::{encrypt_stream, StreamEncryptor};
pub use error::CryptoError;
pub use key::{create_nonce, random_name, simple_decrypt_data, simple_encrypt_data, SecureKey};
pub use keyfile::{protect_key_with_password, recover_key_from_password};

//! Operations on files: which of them are done, in which order, and what
//! becomes of each outcome.
//!
//! An operation is a state. It asks for an action, goes on with the reply to it,
//! and ends with a result. Nothing in here touches a file: whoever runs an
//! operation carries the actions out.

pub mod action;
pub mod decrypt;
pub mod decrypt_dir;
pub mod delete;
pub mod encrypt;
pub mod encrypt_dir;
pub mod encrypt_tree;
pub mod error;
pub mod hidden_tree;
pub mod naming;
pub mod notice;
pub mod payloads;
pub mod roundtrip;
pub mod stats;
pub mod tree;

pub use action::{Action, FileKind, FileListing, FileReply, Listing, Notice, Progress, Reply};
pub use decrypt::{decrypt_file, DecryptFile};
pub use decrypt_dir::{
    begin_directory_decryption, decrypt_directory_recursive, DecryptDirectory,
};
pub use delete::{secure_delete, SecureDelete};
pub use encrypt::{encrypt_file, progress_bar, EncryptFile};
pub use encrypt_dir::{encrypt_directory_recursive, EncryptDirectory};
pub use error::FileError;
pub use naming::{get_unique_path, reserve_ciphertext_path};
pub use notice::show;
pub use stats::{count_encrypted_payloads, EncryptionStats, TreeEntry};

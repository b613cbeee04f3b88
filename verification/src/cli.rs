//! The command line program: its arguments, and its two commands.

pub mod args;
pub mod decrypt;
pub mod encrypt;
pub mod password;

pub use args::{complaint, parse_args, Command};
pub use decrypt::{decrypt_entry_point, DecryptCommand};
pub use encrypt::{encrypt_entry_point, EncryptCommand};
pub use password::read_password;

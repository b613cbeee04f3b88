//! The ways in which encryption, decryption and key recovery fail.

use vstd::prelude::*;
use vstd::string::to_string_from_display_ensures;
use crate::text::{decimal, decimal_digits, joined};

verus! {

/// The error of the parameters of Argon2.
#[verifier::external_type_specification]
#[verifier::external_body]
pub struct ExArgon2Error(argon2::Error);

/// The error of password hashing.
#[verifier::external_type_specification]
#[verifier::external_body]
pub struct ExPasswordHashError(argon2::password_hash::Error);

/// Why an operation of this module failed.
#[derive(Debug)]
pub enum CryptoError {
    /// The stream has more blocks than the nonce counter can number.
    StreamTooLong,
    /// The cipher refused the file name.
    EncryptMetadata,
    /// The cipher refused the block with this number.
    EncryptChunk(u64),
    /// The cipher refused the integrity footer.
    EncryptFooter,
    /// The file name does not fit the metadata block.
    FilenameTooLong,
    /// The container ends inside the salt.
    FileTooSmall,
    /// The container ends inside a block.
    UnexpectedEnd,
    /// The container does not begin with a metadata block.
    MissingMetadata,
    /// The metadata block claims more bytes than are allowed.
    MetadataTooLarge,
    /// The metadata block does not open under the key.
    MetadataRejected,
    /// The stored file name is not UTF-8.
    FilenameNotUtf8,
    /// The integrity footer does not open under the key.
    FooterCorrupted,
    /// The integrity footer does not match the content.
    IntegrityMismatch,
    /// A block claims more bytes than are allowed.
    InvalidChunkSize,
    /// The block with this number does not open under the key.
    ChunkRejected(u64),
    /// A block is neither data nor footer.
    UnknownChunkType,
    /// The container has more blocks than the nonce counter can number.
    CounterOverflow,
    /// The container ends without an integrity footer.
    FooterMissing,
    /// The cipher refused the data.
    EncryptData,
    /// The sealed data is shorter than its nonce.
    DataTooShort,
    /// The sealed data does not open under the key.
    DecryptData,
    /// The parameters of the key derivation were refused.
    KdfParams(argon2::Error),
    /// The key derivation failed.
    KdfFailed(argon2::password_hash::Error),
    /// The key derivation returned no key.
    KdfEmpty,
    /// The key file has no room for a salt length.
    InvalidKeyFile,
    /// The key file claims a salt that is empty or too long.
    InvalidSaltLength,
    /// The key file ends inside its salt.
    KeyFileTruncated,
    /// The salt is not UTF-8.
    SaltNotUtf8(std::str::Utf8Error),
    /// The salt is not a salt string.
    InvalidSalt(argon2::password_hash::Error),
    /// The key derivation refused the password or the salt.
    WrongPassword,
    /// The master key does not open under the derived key.
    KeyRejected,
    /// The sealed master key has the wrong length.
    InvalidKeyLength,
}

/// Whether `text` is what `t` displays as.
pub open spec fn displays_as<T: core::fmt::Display>(t: T, text: Seq<char>) -> bool {
    exists|s: String| #[trigger] to_string_from_display_ensures::<T>(&t, s) && s@ == text
}

impl CryptoError {
    /// Whether `text` is the message of this error.
    pub open spec fn has_message(self, text: Seq<char>) -> bool {
        match self {
            CryptoError::StreamTooLong => text == "File too large (counter overflow)"@,
            CryptoError::EncryptMetadata => text == "Encryption error (metadata): aead::Error"@,
            CryptoError::EncryptChunk(n) => text == "Encryption error (chunk "@ + decimal_digits(
                n as nat,
            ) + "): aead::Error"@,
            CryptoError::EncryptFooter => text == "Encryption error (hash): aead::Error"@,
            CryptoError::FilenameTooLong => text == "Filename too long to store in metadata"@,
            CryptoError::FileTooSmall => text == "File too small"@,
            CryptoError::UnexpectedEnd => text == "failed to fill whole buffer"@,
            CryptoError::MissingMetadata => text
                == "Invalid file structure: Expected metadata block"@,
            CryptoError::MetadataTooLarge => text == "Metadata header too large"@,
            CryptoError::MetadataRejected => text
                == "Decryption failed (Metadata): Wrong key or corrupt header"@,
            CryptoError::FilenameNotUtf8 => text == "Invalid UTF-8 in filename"@,
            CryptoError::FooterCorrupted => text == "Integrity Check Failed: Footer corrupted"@,
            CryptoError::IntegrityMismatch => text
                == "CRITICAL: Integrity Mismatch. File content has been modified or truncated."@,
            CryptoError::InvalidChunkSize => text == "Invalid chunk size"@,
            CryptoError::ChunkRejected(n) => text == "Decryption failed at chunk "@
                + decimal_digits(n as nat),
            CryptoError::UnknownChunkType => text == "Unknown chunk type found"@,
            CryptoError::CounterOverflow => text == "Counter overflow"@,
            CryptoError::FooterMissing => text
                == "CRITICAL: Truncated file. Integrity footer missing."@,
            CryptoError::EncryptData => text == "Encryption error: aead::Error"@,
            CryptoError::DataTooShort => text == "Data too short"@,
            CryptoError::DecryptData => text == "Decryption failed"@,
            CryptoError::KdfParams(e) => exists|t: Seq<char>| #[trigger]
                displays_as(e, t) && text == "Argon2 params error: "@ + t,
            CryptoError::KdfFailed(e) => exists|t: Seq<char>| #[trigger]
                displays_as(e, t) && text == "Hash error: "@ + t,
            CryptoError::KdfEmpty => text == "Hash failed"@,
            CryptoError::InvalidKeyFile => text == "Invalid key file format"@,
            CryptoError::InvalidSaltLength => text == "Invalid salt length"@,
            CryptoError::KeyFileTruncated => text == "Key file truncated"@,
            CryptoError::SaltNotUtf8(e) => displays_as(e, text),
            CryptoError::InvalidSalt(e) => exists|t: Seq<char>| #[trigger]
                displays_as(e, t) && text == "Invalid salt: "@ + t,
            CryptoError::WrongPassword => text == "Wrong password"@,
            CryptoError::KeyRejected => text == "Wrong password or corrupted key"@,
            CryptoError::InvalidKeyLength => text == "Invalid key length"@,
        }
    }

    /// The message shown to the user.
    pub fn message(&self) -> (text: String)
        ensures
            self.has_message(text@),
    {
        match self {
            CryptoError::StreamTooLong => "File too large (counter overflow)".to_owned(),
            CryptoError::EncryptMetadata => "Encryption error (metadata): aead::Error".to_owned(),
            CryptoError::EncryptChunk(n) => {
                let mut text = joined("Encryption error (chunk ", decimal(*n).as_str());
                text.append("): aead::Error");
                text
            },
            CryptoError::EncryptFooter => "Encryption error (hash): aead::Error".to_owned(),
            CryptoError::FilenameTooLong => "Filename too long to store in metadata".to_owned(),
            CryptoError::FileTooSmall => "File too small".to_owned(),
            CryptoError::UnexpectedEnd => "failed to fill whole buffer".to_owned(),
            CryptoError::MissingMetadata => {
                "Invalid file structure: Expected metadata block".to_owned()
            },
            CryptoError::MetadataTooLarge => "Metadata header too large".to_owned(),
            CryptoError::MetadataRejected => {
                "Decryption failed (Metadata): Wrong key or corrupt header".to_owned()
            },
            CryptoError::FilenameNotUtf8 => "Invalid UTF-8 in filename".to_owned(),
            CryptoError::FooterCorrupted => "Integrity Check Failed: Footer corrupted".to_owned(),
            CryptoError::IntegrityMismatch => {
                "CRITICAL: Integrity Mismatch. File content has been modified or truncated.".to_owned()
            },
            CryptoError::InvalidChunkSize => "Invalid chunk size".to_owned(),
            CryptoError::ChunkRejected(n) => {
                joined("Decryption failed at chunk ", decimal(*n).as_str())
            },
            CryptoError::UnknownChunkType => "Unknown chunk type found".to_owned(),
            CryptoError::CounterOverflow => "Counter overflow".to_owned(),
            CryptoError::FooterMissing => {
                "CRITICAL: Truncated file. Integrity footer missing.".to_owned()
            },
            CryptoError::EncryptData => "Encryption error: aead::Error".to_owned(),
            CryptoError::DataTooShort => "Data too short".to_owned(),
            CryptoError::DecryptData => "Decryption failed".to_owned(),
            CryptoError::KdfParams(e) => {
                let shown = e.to_string();
                assert(displays_as(*e, shown@));
                joined("Argon2 params error: ", shown.as_str())
            },
            CryptoError::KdfFailed(e) => {
                let shown = e.to_string();
                assert(displays_as(*e, shown@));
                joined("Hash error: ", shown.as_str())
            },
            CryptoError::KdfEmpty => "Hash failed".to_owned(),
            CryptoError::InvalidKeyFile => "Invalid key file format".to_owned(),
            CryptoError::InvalidSaltLength => "Invalid salt length".to_owned(),
            CryptoError::KeyFileTruncated => "Key file truncated".to_owned(),
            CryptoError::SaltNotUtf8(e) => {
                let shown = e.to_string();
                assert(displays_as(*e, shown@));
                shown
            },
            CryptoError::InvalidSalt(e) => {
                let shown = e.to_string();
                assert(displays_as(*e, shown@));
                joined("Invalid salt: ", shown.as_str())
            },
            CryptoError::WrongPassword => "Wrong password".to_owned(),
            CryptoError::KeyRejected => "Wrong password or corrupted key".to_owned(),
            CryptoError::InvalidKeyLength => "Invalid key length".to_owned(),
        }
    }
}

/// The message of a block that could not be sealed or opened ends with, or has
/// within it, the number of that block in decimal digits, however large it is.
pub proof fn law_messages_name_the_block(n: u64, text: Seq<char>)
    ensures
        CryptoError::ChunkRejected(n).has_message(text) <==> text == "Decryption failed at chunk "@
            + decimal_digits(n as nat),
        CryptoError::EncryptChunk(n).has_message(text) <==> text == "Encryption error (chunk "@
            + decimal_digits(n as nat) + "): aead::Error"@,
{
}

} // verus!

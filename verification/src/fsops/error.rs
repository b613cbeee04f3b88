//! The ways in which file operations fail.

use vstd::prelude::*;
use crate::crypto::CryptoError;
use crate::text::{joined, lossy_of, lossy_text};

verus! {

/// Why a file operation failed. `P` stands for a path, `T` for a text.
#[derive(Debug)]
pub enum FsError<P, T> {
    /// The operating system refused a request, with this message.
    Io(T),
    /// Encryption or decryption failed.
    Crypto(CryptoError),
    /// Every name that was tried for a ciphertext is taken.
    NoCiphertextName,
    /// The file to encrypt has no name.
    InvalidFilename,
    /// The stored file name names nothing.
    InvalidFilenameInMetadata,
    /// The decrypted file could not be put in its place.
    RenameFailed(T),
    /// The directory lies too deep.
    DepthExceeded(P),
    /// The directory to encrypt has no name.
    InvalidDirectoryName,
    /// The stored directory name is not UTF-8.
    DirectoryNameNotUtf8,
    /// The stored directory name names nothing.
    InvalidDirectoryNameInMetadata,
    /// The path that is taken has no parent.
    InvalidPath,
    /// The path that is taken has no name in UTF-8.
    InvalidName,
    /// Every variant of the path is taken.
    TooManyDuplicates,
    /// There is nothing to encrypt.
    PathMissing,
    /// The password is empty.
    PasswordEmpty,
    /// The two passwords differ.
    PasswordsDiffer,
    /// There is nothing to decrypt, or no key file.
    TargetOrKeyMissing,
    /// What is to be decrypted is neither a file nor a directory.
    UnsupportedTarget,
}

/// [`FsError`] as it occurs in a running program.
pub type FileError = FsError<Vec<u8>, String>;

/// [`FsError`] as contracts speak of it.
pub type FileErrorView = FsError<Seq<u8>, Seq<char>>;

impl View for FsError<Vec<u8>, String> {
    type V = FsError<Seq<u8>, Seq<char>>;

    open spec fn view(&self) -> FsError<Seq<u8>, Seq<char>> {
        match *self {
            FsError::Io(text) => FsError::Io(text@),
            FsError::Crypto(e) => FsError::Crypto(e),
            FsError::NoCiphertextName => FsError::NoCiphertextName,
            FsError::InvalidFilename => FsError::InvalidFilename,
            FsError::InvalidFilenameInMetadata => FsError::InvalidFilenameInMetadata,
            FsError::RenameFailed(text) => FsError::RenameFailed(text@),
            FsError::DepthExceeded(path) => FsError::DepthExceeded(path@),
            FsError::InvalidDirectoryName => FsError::InvalidDirectoryName,
            FsError::DirectoryNameNotUtf8 => FsError::DirectoryNameNotUtf8,
            FsError::InvalidDirectoryNameInMetadata => FsError::InvalidDirectoryNameInMetadata,
            FsError::InvalidPath => FsError::InvalidPath,
            FsError::InvalidName => FsError::InvalidName,
            FsError::TooManyDuplicates => FsError::TooManyDuplicates,
            FsError::PathMissing => FsError::PathMissing,
            FsError::PasswordEmpty => FsError::PasswordEmpty,
            FsError::PasswordsDiffer => FsError::PasswordsDiffer,
            FsError::TargetOrKeyMissing => FsError::TargetOrKeyMissing,
            FsError::UnsupportedTarget => FsError::UnsupportedTarget,
        }
    }
}

impl FsError<Seq<u8>, Seq<char>> {
    /// Whether `text` is the message of this error.
    pub open spec fn has_message(self, text: Seq<char>) -> bool {
        match self {
            FsError::Io(shown) => text == shown,
            FsError::Crypto(e) => e.has_message(text),
            FsError::NoCiphertextName => text == "Unable to allocate a unique ciphertext name"@,
            FsError::InvalidFilename => text == "Invalid filename"@,
            FsError::InvalidFilenameInMetadata => text == "Invalid filename in metadata"@,
            FsError::RenameFailed(shown) => text
                == "Failed to rename temp file to final destination: "@ + shown,
            FsError::DepthExceeded(path) => text == "Directory depth limit exceeded at "@
                + lossy_of(path),
            FsError::InvalidDirectoryName => text == "Invalid directory name"@,
            FsError::DirectoryNameNotUtf8 => text == "Invalid UTF-8 in directory name"@,
            FsError::InvalidDirectoryNameInMetadata => text
                == "Invalid directory name in metadata"@,
            FsError::InvalidPath => text == "Invalid path"@,
            FsError::InvalidName => text == "Invalid name"@,
            FsError::TooManyDuplicates => text == "Too many duplicates"@,
            FsError::PathMissing => text == "Path does not exist"@,
            FsError::PasswordEmpty => text == "Password cannot be empty"@,
            FsError::PasswordsDiffer => text == "Passwords do not match"@,
            FsError::TargetOrKeyMissing => text == "Target path or key file not found"@,
            FsError::UnsupportedTarget => text == "Target type not supported"@,
        }
    }
}

impl FsError<Vec<u8>, String> {
    /// The message shown to the user.
    pub fn message(&self) -> (text: String)
        ensures
            self@.has_message(text@),
    {
        match self {
            FsError::Io(shown) => shown.as_str().to_owned(),
            FsError::Crypto(e) => e.message(),
            FsError::NoCiphertextName => "Unable to allocate a unique ciphertext name".to_owned(),
            FsError::InvalidFilename => "Invalid filename".to_owned(),
            FsError::InvalidFilenameInMetadata => "Invalid filename in metadata".to_owned(),
            FsError::RenameFailed(shown) => joined(
                "Failed to rename temp file to final destination: ",
                shown.as_str(),
            ),
            FsError::DepthExceeded(path) => joined(
                "Directory depth limit exceeded at ",
                lossy_text(path.as_slice()).as_str(),
            ),
            FsError::InvalidDirectoryName => "Invalid directory name".to_owned(),
            FsError::DirectoryNameNotUtf8 => "Invalid UTF-8 in directory name".to_owned(),
            FsError::InvalidDirectoryNameInMetadata => {
                "Invalid directory name in metadata".to_owned()
            },
            FsError::InvalidPath => "Invalid path".to_owned(),
            FsError::InvalidName => "Invalid name".to_owned(),
            FsError::TooManyDuplicates => "Too many duplicates".to_owned(),
            FsError::PathMissing => "Path does not exist".to_owned(),
            FsError::PasswordEmpty => "Password cannot be empty".to_owned(),
            FsError::PasswordsDiffer => "Passwords do not match".to_owned(),
            FsError::TargetOrKeyMissing => "Target path or key file not found".to_owned(),
            FsError::UnsupportedTarget => "Target type not supported".to_owned(),
        }
    }
}

/// Whether `text` ends with the text of what failed.
pub open spec fn ends_in(text: Seq<char>, end: Seq<char>) -> bool {
    text.len() >= end.len() && text.skip(text.len() - end.len()) == end
}

/// What the system says of a failure is shown in full at the end of the message, and
/// so is the path of a directory that lies too deep. What the cryptography says is
/// shown as it is.
pub proof fn law_messages_carry_the_reason(
    shown: Seq<char>,
    path: Seq<u8>,
    e: CryptoError,
    text: Seq<char>,
)
    ensures
        FileErrorView::Io(shown).has_message(text) <==> text == shown,
        FileErrorView::Crypto(e).has_message(text) <==> e.has_message(text),
        FileErrorView::RenameFailed(shown).has_message(text) ==> ends_in(text, shown),
        FileErrorView::DepthExceeded(path).has_message(text) ==> ends_in(text, lossy_of(path)),
{
    lemma_ends_in("Failed to rename temp file to final destination: "@, shown);
    lemma_ends_in("Directory depth limit exceeded at "@, lossy_of(path));
}

pub(crate) proof fn lemma_ends_in(front: Seq<char>, end: Seq<char>)
    ensures
        ends_in(front + end, end),
{
    assert((front + end).skip(front.len() as int) =~= end);
}

} // verus!

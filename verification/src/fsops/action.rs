//! The vocabulary between the operations and whoever carries them out: an
//! operation asks for an action, and goes on with the reply to it.
//!
//! The types stand in for two readings each: `P` is a path or a row of bytes,
//! `T` a text, `L` what a directory holds. In a running program they are
//! `Vec<u8>`, `String` and [`FileListing`]; contracts read them as sequences.

use vstd::prelude::*;
use crate::fsops::error::FsError;

verus! {

/// What stands at a path. A symbolic link is not followed.
#[derive(Clone, Copy, Debug, PartialEq, Eq, Structural)]
pub enum FileKind {
    /// A symbolic link.
    Symlink,
    /// A directory.
    Directory,
    /// A regular file.
    File,
    /// Anything else.
    Other,
}

/// What an operation asks for next.
#[derive(Debug)]
pub enum Action<P, T> {
    /// Look at what stands at the path, without following a symbolic link.
    Stat(P),
    /// Find out whether something stands at the path, at the end of the symbolic
    /// links that it leads through.
    CheckExists(P),
    /// Find out whether the name is taken, be it by a symbolic link that leads
    /// nowhere.
    CheckTaken(P),
    /// Find out whether a directory stands at the path.
    CheckDirectory(P),
    /// Read a whole file.
    ReadFile(P),
    /// List the paths in a directory.
    ListDirectory(P),
    /// Open the file to read from.
    OpenSource(P),
    /// Create the file to write to.
    CreateOutput(P),
    /// Encrypt the source into the output under this file name, with a progress
    /// bar of this length.
    EncryptInto(T, Option<u64>),
    /// Read the beginning of the container that is the source.
    ReadHeader,
    /// Decrypt the rest of the source into the output.
    DecryptInto,
    /// Bring the output to the disk, and close it.
    SyncOutput,
    /// Open a file to be overwritten from its start.
    OpenForOverwrite(P),
    /// Overwrite the next bytes with these.
    Overwrite(P),
    /// Bring what was overwritten to the disk, and close the file.
    SyncOverwritten,
    /// Remove a file, after closing the output.
    Remove(P),
    /// Give what stands at the first path the second path.
    Rename(P, P),
    /// Write these bytes to a file.
    WriteFile(P, P),
    /// Write these bytes to a file with these permissions, and bring them to
    /// the disk.
    WriteKeyFile(P, P, u32),
    /// Delete a file securely, after closing the output.
    SecureDelete(P),
    /// Encrypt a file.
    EncryptFile(P),
    /// Decrypt a file.
    DecryptFile(P),
    /// Encrypt a directory that lies this deep.
    EncryptDirectory(P, usize),
    /// Decrypt a directory that lies this deep.
    DecryptDirectory(P, usize),
    /// Count the payloads in a directory tree.
    CountPayloads(P),
    /// Ask for a password with this prompt.
    AskPassword(T),
}

/// What a directory holds, as far as it could be read. `L` stands for a list of
/// paths, `M` for a list of texts.
#[derive(Debug)]
pub struct Listing<L, M> {
    /// The paths in the directory.
    pub entries: L,
    /// Why entries could not be read, one message for each of them.
    pub failed: M,
}

/// What came of an action.
#[derive(Debug)]
pub enum Reply<P, T, L> {
    /// What stands at the path, and its length.
    Meta(Result<(FileKind, u64), T>),
    /// Whether it is so.
    Answer(bool),
    /// The bytes of the file.
    Bytes(Result<P, T>),
    /// What the directory holds.
    Entries(Result<L, T>),
    /// Whether the operating system did it.
    Done(Result<(), T>),
    /// Whether the operation succeeded.
    Outcome(Result<(), FsError<P, T>>),
    /// The file name in the beginning of a container.
    Name(Result<T, FsError<P, T>>),
    /// The number of payloads.
    Count(usize),
    /// The password.
    Password(Result<T, T>),
}

/// What is shown to the user.
#[derive(Debug)]
pub enum Notice<P, T> {
    /// A symbolic link is left alone.
    SkippingSymlink(P),
    /// Encryption of a file begins.
    Encrypting(P),
    /// A file was encrypted.
    FileEncrypted,
    /// Decryption of a file begins.
    Processing(P),
    /// A file was decrypted to this name.
    Restored(P),
    /// A directory of this name was encrypted to this path.
    DirectoryEncrypted(T, P),
    /// A directory got its name back, and has this path. Where the flag is set,
    /// its marker could not be deleted, which is the last thing recorded.
    DirectoryRestored(P, bool),
    /// The key was written to this path.
    KeySaved(P),
    /// The file could not be encrypted.
    EncryptionFailed(FsError<P, T>),
    /// The directory could not be encrypted.
    DirectoryEncryptionFailed(FsError<P, T>),
    /// There is nothing that could be encrypted.
    NeitherFileNorDirectory,
    /// The master key was recovered.
    PasswordCorrect,
    /// Not everything was decrypted.
    KeyKept,
    /// Everything was decrypted.
    AllSuccessful,
    /// The key file was deleted.
    KeyDeleted,
}

/// What went wrong with a part of a directory tree, while the rest went on.
#[derive(Debug)]
pub enum Trouble<P, T> {
    /// The directory lies too deep.
    TooDeep(P),
    /// The name of the directory could not be restored.
    DirectoryName(P, FsError<P, T>),
    /// The directory could not be listed.
    Listing(P, T),
    /// The entry could not be looked at.
    Metadata(P, T),
    /// An entry of the directory could not be read.
    Entry(P, T),
    /// The file could not be decrypted.
    File(P, FsError<P, T>),
    /// The file that held the name of a directory could not be deleted.
    Marker(P, FsError<P, T>),
}

/// Where an operation stands: it goes on from a state, or has ended.
#[derive(Debug)]
pub enum Progress<S, P, T> {
    /// The operation goes on.
    Running(S),
    /// The operation has ended.
    Finished(Result<(), FsError<P, T>>),
}

/// [`Action`] as contracts speak of it.
pub type ActionView = Action<Seq<u8>, Seq<char>>;

/// [`Listing`] in a running program.
pub type FileListing = Listing<Vec<Vec<u8>>, Vec<String>>;

/// [`Listing`] as contracts speak of it.
pub type ListingView = Listing<Seq<Seq<u8>>, Seq<Seq<char>>>;

/// [`Reply`] in a running program.
pub type FileReply = Reply<Vec<u8>, String, FileListing>;

/// [`Reply`] as contracts speak of it.
pub type ReplyView = Reply<Seq<u8>, Seq<char>, ListingView>;

/// [`Notice`] as contracts speak of it.
pub type NoticeView = Notice<Seq<u8>, Seq<char>>;

/// [`Trouble`] as contracts speak of it.
pub type TroubleView = Trouble<Seq<u8>, Seq<char>>;

/// A list of paths as contracts speak of it.
pub open spec fn list_view(list: Vec<Vec<u8>>) -> Seq<Seq<u8>> {
    Seq::new(list@.len(), |i: int| list@[i]@)
}

/// A list of texts as contracts speak of it.
pub open spec fn texts_view(texts: Vec<String>) -> Seq<Seq<char>> {
    Seq::new(texts@.len(), |i: int| texts@[i]@)
}

/// A list of what went wrong, as contracts speak of it.
pub open spec fn troubles_view(troubles: Vec<Trouble<Vec<u8>, String>>) -> Seq<TroubleView> {
    Seq::new(troubles@.len(), |i: int| troubles@[i]@)
}

/// An outcome as contracts speak of it.
pub open spec fn outcome_view(r: Result<(), FsError<Vec<u8>, String>>) -> Result<
    (),
    FsError<Seq<u8>, Seq<char>>,
> {
    match r {
        Ok(()) => Ok(()),
        Err(e) => Err(e@),
    }
}

/// An optional notice as contracts speak of it.
pub open spec fn say_view(say: Option<Notice<Vec<u8>, String>>) -> Option<NoticeView> {
    match say {
        Some(notice) => Some(notice@),
        None => None,
    }
}

/// Where an operation stands, as contracts speak of it.
pub open spec fn progress_view<S: View>(p: Progress<S, Vec<u8>, String>) -> Progress<
    S::V,
    Seq<u8>,
    Seq<char>,
> {
    match p {
        Progress::Running(s) => Progress::Running(s@),
        Progress::Finished(r) => Progress::Finished(outcome_view(r)),
    }
}

impl View for Action<Vec<u8>, String> {
    type V = Action<Seq<u8>, Seq<char>>;

    open spec fn view(&self) -> Action<Seq<u8>, Seq<char>> {
        match *self {
            Action::Stat(path) => Action::Stat(path@),
            Action::CheckExists(path) => Action::CheckExists(path@),
            Action::CheckTaken(path) => Action::CheckTaken(path@),
            Action::CheckDirectory(path) => Action::CheckDirectory(path@),
            Action::ReadFile(path) => Action::ReadFile(path@),
            Action::ListDirectory(path) => Action::ListDirectory(path@),
            Action::OpenSource(path) => Action::OpenSource(path@),
            Action::CreateOutput(path) => Action::CreateOutput(path@),
            Action::EncryptInto(name, bar) => Action::EncryptInto(name@, bar),
            Action::ReadHeader => Action::ReadHeader,
            Action::DecryptInto => Action::DecryptInto,
            Action::SyncOutput => Action::SyncOutput,
            Action::OpenForOverwrite(path) => Action::OpenForOverwrite(path@),
            Action::Overwrite(bytes) => Action::Overwrite(bytes@),
            Action::SyncOverwritten => Action::SyncOverwritten,
            Action::Remove(path) => Action::Remove(path@),
            Action::Rename(from, to) => Action::Rename(from@, to@),
            Action::WriteFile(path, bytes) => Action::WriteFile(path@, bytes@),
            Action::WriteKeyFile(path, bytes, mode) => Action::WriteKeyFile(path@, bytes@, mode),
            Action::SecureDelete(path) => Action::SecureDelete(path@),
            Action::EncryptFile(path) => Action::EncryptFile(path@),
            Action::DecryptFile(path) => Action::DecryptFile(path@),
            Action::EncryptDirectory(path, depth) => Action::EncryptDirectory(path@, depth),
            Action::DecryptDirectory(path, depth) => Action::DecryptDirectory(path@, depth),
            Action::CountPayloads(path) => Action::CountPayloads(path@),
            Action::AskPassword(prompt) => Action::AskPassword(prompt@),
        }
    }
}

impl View for Listing<Vec<Vec<u8>>, Vec<String>> {
    type V = Listing<Seq<Seq<u8>>, Seq<Seq<char>>>;

    open spec fn view(&self) -> Listing<Seq<Seq<u8>>, Seq<Seq<char>>> {
        Listing { entries: list_view(self.entries), failed: texts_view(self.failed) }
    }
}

impl View for Reply<Vec<u8>, String, Listing<Vec<Vec<u8>>, Vec<String>>> {
    type V = Reply<Seq<u8>, Seq<char>, ListingView>;

    open spec fn view(&self) -> Reply<Seq<u8>, Seq<char>, ListingView> {
        match *self {
            Reply::Meta(r) => Reply::Meta(
                match r {
                    Ok(meta) => Ok(meta),
                    Err(text) => Err(text@),
                },
            ),
            Reply::Answer(b) => Reply::Answer(b),
            Reply::Bytes(r) => Reply::Bytes(
                match r {
                    Ok(bytes) => Ok(bytes@),
                    Err(text) => Err(text@),
                },
            ),
            Reply::Entries(r) => Reply::Entries(
                match r {
                    Ok(listing) => Ok(listing@),
                    Err(text) => Err(text@),
                },
            ),
            Reply::Done(r) => Reply::Done(
                match r {
                    Ok(()) => Ok(()),
                    Err(text) => Err(text@),
                },
            ),
            Reply::Outcome(r) => Reply::Outcome(outcome_view(r)),
            Reply::Name(r) => Reply::Name(
                match r {
                    Ok(name) => Ok(name@),
                    Err(e) => Err(e@),
                },
            ),
            Reply::Count(n) => Reply::Count(n),
            Reply::Password(r) => Reply::Password(
                match r {
                    Ok(password) => Ok(password@),
                    Err(text) => Err(text@),
                },
            ),
        }
    }
}

impl View for Notice<Vec<u8>, String> {
    type V = Notice<Seq<u8>, Seq<char>>;

    open spec fn view(&self) -> Notice<Seq<u8>, Seq<char>> {
        match *self {
            Notice::SkippingSymlink(path) => Notice::SkippingSymlink(path@),
            Notice::Encrypting(path) => Notice::Encrypting(path@),
            Notice::FileEncrypted => Notice::FileEncrypted,
            Notice::Processing(path) => Notice::Processing(path@),
            Notice::Restored(name) => Notice::Restored(name@),
            Notice::DirectoryEncrypted(name, path) => Notice::DirectoryEncrypted(name@, path@),
            Notice::DirectoryRestored(path, kept) => Notice::DirectoryRestored(path@, kept),
            Notice::KeySaved(path) => Notice::KeySaved(path@),
            Notice::EncryptionFailed(e) => Notice::EncryptionFailed(e@),
            Notice::DirectoryEncryptionFailed(e) => Notice::DirectoryEncryptionFailed(e@),
            Notice::NeitherFileNorDirectory => Notice::NeitherFileNorDirectory,
            Notice::PasswordCorrect => Notice::PasswordCorrect,
            Notice::KeyKept => Notice::KeyKept,
            Notice::AllSuccessful => Notice::AllSuccessful,
            Notice::KeyDeleted => Notice::KeyDeleted,
        }
    }
}

impl View for Trouble<Vec<u8>, String> {
    type V = Trouble<Seq<u8>, Seq<char>>;

    open spec fn view(&self) -> Trouble<Seq<u8>, Seq<char>> {
        match *self {
            Trouble::TooDeep(path) => Trouble::TooDeep(path@),
            Trouble::DirectoryName(path, e) => Trouble::DirectoryName(path@, e@),
            Trouble::Listing(path, text) => Trouble::Listing(path@, text@),
            Trouble::Metadata(path, text) => Trouble::Metadata(path@, text@),
            Trouble::Entry(path, text) => Trouble::Entry(path@, text@),
            Trouble::File(path, e) => Trouble::File(path@, e@),
            Trouble::Marker(path, e) => Trouble::Marker(path@, e@),
        }
    }
}

/// One exchange of an operation: what it asked for, the reply, and what was
/// drawn at random to go on with.
pub ghost struct Exchange<R> {
    /// The action asked for.
    pub asked: ActionView,
    /// The reply to it.
    pub reply: ReplyView,
    /// What was drawn at random.
    pub drawn: R,
}

/// Whether `reply` is of the kind that answers `action`.
pub open spec fn answers(action: ActionView, reply: ReplyView) -> bool {
    match action {
        Action::Stat(_) => reply is Meta,
        Action::CheckExists(_) => reply is Answer,
        Action::CheckTaken(_) => reply is Answer,
        Action::CheckDirectory(_) => reply is Answer,
        Action::ReadFile(_) => reply is Bytes,
        Action::ListDirectory(_) => reply is Entries,
        Action::OpenSource(_) => reply is Done,
        Action::CreateOutput(_) => reply is Done,
        Action::EncryptInto(_, _) => reply is Outcome,
        Action::ReadHeader => reply is Name,
        Action::DecryptInto => reply is Outcome,
        Action::SyncOutput => reply is Done,
        Action::OpenForOverwrite(_) => reply is Done,
        Action::Overwrite(_) => reply is Done,
        Action::SyncOverwritten => reply is Done,
        Action::Remove(_) => reply is Done,
        Action::Rename(_, _) => reply is Done,
        Action::WriteFile(_, _) => reply is Done,
        Action::WriteKeyFile(_, _, _) => reply is Done,
        Action::SecureDelete(_) => reply is Outcome,
        Action::EncryptFile(_) => reply is Outcome,
        Action::DecryptFile(_) => reply is Outcome,
        Action::EncryptDirectory(_, _) => reply is Outcome,
        Action::DecryptDirectory(_, _) => reply is Outcome,
        Action::CountPayloads(_) => reply is Count,
        Action::AskPassword(_) => reply is Password,
    }
}

/// Whether `reply` says that what was asked for was done.
pub open spec fn succeeded(reply: ReplyView) -> bool {
    match reply {
        Reply::Done(r) => r is Ok,
        Reply::Outcome(r) => r is Ok,
        _ => false,
    }
}

/// Whether `reply` says that something failed.
pub open spec fn failed(reply: ReplyView) -> bool {
    match reply {
        Reply::Meta(r) => r is Err,
        Reply::Bytes(r) => r is Err,
        Reply::Entries(Ok(listing)) => listing.failed.len() > 0,
        Reply::Entries(Err(_)) => true,
        Reply::Done(r) => r is Err,
        Reply::Outcome(r) => r is Err,
        Reply::Name(r) => r is Err,
        Reply::Password(r) => r is Err,
        Reply::Answer(_) => false,
        Reply::Count(_) => false,
    }
}

/// What the last listing in the exchanges `done` has found.
pub open spec fn listed<R>(done: Seq<Exchange<R>>) -> Seq<Seq<u8>>
    decreases done.len(),
{
    if done.len() == 0 {
        Seq::empty()
    } else {
        match done.last().reply {
            Reply::Entries(Ok(listing)) => listing.entries,
            _ => listed(done.drop_last()),
        }
    }
}

/// How many times the exchanges `done` have looked at what stands at a path.
pub open spec fn looked<R>(done: Seq<Exchange<R>>) -> nat
    decreases done.len(),
{
    if done.len() == 0 {
        0
    } else {
        looked(done.drop_last()) + if done.last().asked is Stat {
            1nat
        } else {
            0
        }
    }
}

} // verus!

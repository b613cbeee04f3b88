//! Encryption of a directory: of everything in it, then of its name.

use vstd::prelude::*;
use vstd::utf8::{decode_utf8_encode_utf8, encode_utf8, valid_utf8};
use crate::bytes::copied;
use crate::crypto::key::{bytes_view, simple_opened};
use crate::crypto::primitives::{cipher_accepts, cipher_returns, cipher_takes, TAG_LEN};
use crate::crypto::{simple_encrypt_data, CryptoError, SecureKey};
use crate::fsops::action::{
    answers, failed, list_view, listed, looked, progress_view, say_view, succeeded, Action,
    ActionView, Exchange, FileKind, FileReply, Notice, NoticeView, Progress, Reply, ReplyView,
};
use crate::fsops::error::{FileErrorView, FsError};
use crate::fsops::naming::{is_random_name, law_random_names_stay, new_name};
use crate::fsops::stats::DIR_MARKER;
use crate::paths::{
    file_name, file_name_of, join, join_of, parent_directory, parent_of, parent_or_dot,
};
use crate::text::{lossy_of, lossy_text, str_from_utf8};

verus! {

/// The depth below which no directory is entered.
pub const MAX_DEPTH: usize = 50;

/// The state of the encryption of a directory.
#[derive(Debug)]
pub enum EncryptDirectory<P, L> {
    /// The directory is listed.
    List { path: P, depth: usize },
    /// The entry with index `at` is looked at.
    Look { path: P, depth: usize, entries: L, at: usize },
    /// The entry, a directory, is encrypted.
    Descend { path: P, depth: usize, entries: L, at: usize },
    /// The entry, a file, is encrypted.
    EncryptEntry { path: P, depth: usize, entries: L, at: usize },
    /// The entries are encrypted; the name of the directory is to be sealed.
    Seal { path: P },
    /// The sealed name is written into the directory.
    WriteMarker { path: P, sealed: P },
    /// The directory gets a random name.
    Rename { path: P, target: P },
}

/// [`EncryptDirectory`] as contracts speak of it.
pub type EncryptDirectoryView = EncryptDirectory<Seq<u8>, Seq<Seq<u8>>>;

impl View for EncryptDirectory<Vec<u8>, Vec<Vec<u8>>> {
    type V = EncryptDirectory<Seq<u8>, Seq<Seq<u8>>>;

    open spec fn view(&self) -> EncryptDirectory<Seq<u8>, Seq<Seq<u8>>> {
        match *self {
            EncryptDirectory::List { path, depth } => EncryptDirectory::List { path: path@, depth },
            EncryptDirectory::Look { path, depth, entries, at } => EncryptDirectory::Look {
                path: path@,
                depth,
                entries: list_view(entries),
                at,
            },
            EncryptDirectory::Descend { path, depth, entries, at } => EncryptDirectory::Descend {
                path: path@,
                depth,
                entries: list_view(entries),
                at,
            },
            EncryptDirectory::EncryptEntry { path, depth, entries, at } => {
                EncryptDirectory::EncryptEntry {
                    path: path@,
                    depth,
                    entries: list_view(entries),
                    at,
                }
            },
            EncryptDirectory::Seal { path } => EncryptDirectory::Seal { path: path@ },
            EncryptDirectory::WriteMarker { path, sealed } => EncryptDirectory::WriteMarker {
                path: path@,
                sealed: sealed@,
            },
            EncryptDirectory::Rename { path, target } => EncryptDirectory::Rename {
                path: path@,
                target: target@,
            },
        }
    }
}

/// The name of the directory at `path`, as it is sealed.
pub open spec fn directory_name(path: Seq<u8>) -> Seq<char> {
    lossy_of(file_name_of(path)->Some_0)
}

/// Whether the cipher returns when given the name of the directory at `path`. A
/// name that is not text is sealed as text that takes up to three bytes for each
/// of its bytes.
pub open spec fn name_can_be_sealed(path: Seq<u8>) -> bool {
    file_name_of(path) matches Some(name) ==> if valid_utf8(name) {
        cipher_returns(name.len())
    } else {
        cipher_accepts(3 * name.len()) && cipher_returns(3 * name.len())
    }
}

/// Whether the cipher returns when given the name of the directory at `path`.
pub fn can_seal_name(path: &[u8]) -> (b: bool)
    ensures
        b == name_can_be_sealed(path@),
{
    match file_name(path) {
        Some(name) => if str_from_utf8(name).is_ok() {
            cipher_takes(name.len())
        } else {
            let longest: u128 = 3 * (name.len() as u128);
            longest <= 64 * (u32::MAX as u128 - 1) && longest + TAG_LEN as u128
                <= isize::MAX as u128
        },
        None => true,
    }
}

/// What follows when the entries before the one with index `at` are done.
pub open spec fn entering(path: Seq<u8>, depth: usize, entries: Seq<Seq<u8>>, at: int) -> Progress<
    EncryptDirectoryView,
    Seq<u8>,
    Seq<char>,
> {
    if at < entries.len() {
        Progress::Running(EncryptDirectory::Look { path, depth, entries, at: at as usize })
    } else if file_name_of(path) is None {
        Progress::Finished(Err(FsError::InvalidDirectoryName))
    } else {
        Progress::Running(EncryptDirectory::Seal { path })
    }
}

/// What follows the sealing of the name of the directory at `path`.
pub open spec fn marking(path: Seq<u8>, sealed: Result<Seq<u8>, CryptoError>) -> Progress<
    EncryptDirectoryView,
    Seq<u8>,
    Seq<char>,
> {
    match sealed {
        Ok(bytes) => Progress::Running(EncryptDirectory::WriteMarker { path, sealed: bytes }),
        Err(e) => Progress::Finished(Err(FsError::Crypto(e))),
    }
}

/// What follows the request to encrypt the directory at `path`, this deep.
pub open spec fn directory_encryption(path: Seq<u8>, depth: usize) -> Progress<
    EncryptDirectoryView,
    Seq<u8>,
    Seq<char>,
> {
    if depth > MAX_DEPTH {
        Progress::Finished(Err(FsError::DepthExceeded(path)))
    } else {
        Progress::Running(EncryptDirectory::List { path, depth })
    }
}

/// What is drawn at random to go on with: a name, and the sealed name of the
/// directory.
pub ghost struct DirectoryDraw {
    /// A random name.
    pub name: Seq<char>,
    /// The name of the directory, sealed under a random nonce.
    pub sealed: Result<Seq<u8>, CryptoError>,
}

impl EncryptDirectory<Seq<u8>, Seq<Seq<u8>>> {
    /// The action that the encryption waits for.
    pub open spec fn pending(self) -> ActionView {
        match self {
            EncryptDirectory::List { path, .. } => Action::ListDirectory(path),
            EncryptDirectory::Look { entries, at, .. } => Action::Stat(entries[at as int]),
            EncryptDirectory::Descend { depth, entries, at, .. } => Action::EncryptDirectory(
                entries[at as int],
                (depth + 1) as usize,
            ),
            EncryptDirectory::EncryptEntry { entries, at, .. } => Action::EncryptFile(
                entries[at as int],
            ),
            EncryptDirectory::Seal { .. } => arbitrary(),
            EncryptDirectory::WriteMarker { path, sealed } => Action::WriteFile(
                join_of(path, encode_utf8(DIR_MARKER@)),
                sealed,
            ),
            EncryptDirectory::Rename { path, target } => Action::Rename(path, target),
        }
    }

    /// Whether the depth is allowed, there is an entry with the index, a
    /// directory whose name is sealed has one, and the cipher returns when given
    /// the name.
    pub open spec fn wf(self) -> bool {
        match self {
            EncryptDirectory::List { path, depth } => depth <= MAX_DEPTH && name_can_be_sealed(path),
            EncryptDirectory::Look { path, depth, entries, at } => depth <= MAX_DEPTH && at
                < entries.len() <= usize::MAX && name_can_be_sealed(path),
            EncryptDirectory::Descend { path, depth, entries, at } => depth <= MAX_DEPTH && at
                < entries.len() <= usize::MAX && name_can_be_sealed(path),
            EncryptDirectory::EncryptEntry { path, depth, entries, at } => depth <= MAX_DEPTH && at
                < entries.len() <= usize::MAX && name_can_be_sealed(path),
            EncryptDirectory::Seal { path } => file_name_of(path) is Some && name_can_be_sealed(path),
            EncryptDirectory::WriteMarker { path, .. } => file_name_of(path) is Some,
            EncryptDirectory::Rename { path, .. } => file_name_of(path) is Some,
        }
    }

    /// What follows a reply, and what is shown before. `name` is random.
    pub open spec fn after(self, reply: ReplyView, name: Seq<char>) -> (
        Progress<EncryptDirectoryView, Seq<u8>, Seq<char>>,
        Option<NoticeView>,
    ) {
        match (self, reply) {
            (EncryptDirectory::List { path, depth }, Reply::Entries(Ok(listing))) => (
                entering(path, depth, listing.entries, 0),
                None,
            ),
            (
                EncryptDirectory::Look { path, depth, entries, at },
                Reply::Meta(Ok((kind, _))),
            ) => match kind {
                FileKind::Symlink => (
                    entering(path, depth, entries, at + 1),
                    Some(Notice::SkippingSymlink(entries[at as int])),
                ),
                FileKind::Directory => (
                    Progress::Running(EncryptDirectory::Descend { path, depth, entries, at }),
                    None,
                ),
                FileKind::File => (
                    Progress::Running(EncryptDirectory::EncryptEntry { path, depth, entries, at }),
                    None,
                ),
                FileKind::Other => (entering(path, depth, entries, at + 1), None),
            },
            (
                EncryptDirectory::Descend { path, depth, entries, at },
                Reply::Outcome(Ok(_)),
            ) => (entering(path, depth, entries, at + 1), None),
            (
                EncryptDirectory::EncryptEntry { path, depth, entries, at },
                Reply::Outcome(Ok(_)),
            ) => (entering(path, depth, entries, at + 1), None),
            (EncryptDirectory::WriteMarker { path, .. }, Reply::Done(Ok(_))) => (
                Progress::Running(
                    EncryptDirectory::Rename {
                        path,
                        target: join_of(parent_or_dot(path), encode_utf8(name)),
                    },
                ),
                None,
            ),
            (EncryptDirectory::Rename { path, target }, Reply::Done(Ok(_))) => (
                Progress::Finished(Ok(())),
                Some(Notice::DirectoryEncrypted(directory_name(path), target)),
            ),
            (_, Reply::Entries(Err(text))) => (Progress::Finished(Err(FsError::Io(text))), None),
            (_, Reply::Meta(Err(text))) => (Progress::Finished(Err(FsError::Io(text))), None),
            (_, Reply::Done(Err(text))) => (Progress::Finished(Err(FsError::Io(text))), None),
            (_, Reply::Outcome(Err(e))) => (Progress::Finished(Err(e)), None),
            _ => arbitrary(),
        }
    }

    /// [`Self::after`], and the sealing of the name of the directory where that
    /// follows.
    pub open spec fn after_sealing(self, reply: ReplyView, drawn: DirectoryDraw) -> (
        Progress<EncryptDirectoryView, Seq<u8>, Seq<char>>,
        Option<NoticeView>,
    ) {
        let (next, say) = self.after(reply, drawn.name);
        match next {
            Progress::Running(EncryptDirectory::Seal { path }) => (
                marking(path, drawn.sealed),
                say,
            ),
            _ => (next, say),
        }
    }

    /// Whether `drawn` can be drawn under `key`: the sealed name opens to the
    /// name of the directory, or the cipher does not accept the name.
    pub open spec fn can_draw(self, reply: ReplyView, drawn: DirectoryDraw, key: Seq<u8>) -> bool {
        &&& is_random_name(drawn.name)
        &&& self.after(reply, drawn.name).0 matches Progress::Running(
            EncryptDirectory::Seal { path },
        ) ==> {
            let text = encode_utf8(directory_name(path));
            match drawn.sealed {
                Ok(bytes) => cipher_accepts(text.len()) && simple_opened(bytes, key) == Ok::<
                    Seq<u8>,
                    CryptoError,
                >(text),
                Err(e) => !cipher_accepts(text.len()) && e == CryptoError::EncryptData,
            }
        }
    }
}

/// Where the encryption of the directory at `path` stands after the exchanges
/// `done`.
pub open spec fn directory_encryption_at(
    path: Seq<u8>,
    depth: usize,
    done: Seq<Exchange<DirectoryDraw>>,
) -> Progress<EncryptDirectoryView, Seq<u8>, Seq<char>>
    decreases done.len(),
{
    if done.len() == 0 {
        directory_encryption(path, depth)
    } else {
        match directory_encryption_at(path, depth, done.drop_last()) {
            Progress::Running(s) => s.after_sealing(done.last().reply, done.last().drawn).0,
            Progress::Finished(r) => Progress::Finished(r),
        }
    }
}

/// Whether `done` are exchanges of the encryption of the directory at `path`
/// under `key`, from its beginning on.
pub open spec fn is_directory_encryption(
    path: Seq<u8>,
    depth: usize,
    key: Seq<u8>,
    done: Seq<Exchange<DirectoryDraw>>,
) -> bool
    decreases done.len(),
{
    done.len() > 0 ==> {
        &&& is_directory_encryption(path, depth, key, done.drop_last())
        &&& directory_encryption_at(path, depth, done.drop_last()) matches Progress::Running(s)
        &&& done.last().asked == s.pending()
        &&& answers(s.pending(), done.last().reply)
        &&& s.can_draw(done.last().reply, done.last().drawn, key)
    }
}

/// Whether `entry` was found by the exchange with index `j`, and was encrypted
/// by the next one if it is a file or a directory.
pub open spec fn entry_done_at(
    entry: Seq<u8>,
    depth: usize,
    done: Seq<Exchange<DirectoryDraw>>,
    j: int,
) -> bool {
    &&& 0 <= j < done.len()
    &&& done[j].asked == ActionView::Stat(entry)
    &&& done[j].reply matches Reply::Meta(Ok((kind, _)))
    &&& kind == FileKind::File ==> j + 1 < done.len() && done[j + 1].asked
        == ActionView::EncryptFile(entry) && succeeded(done[j + 1].reply)
    &&& kind == FileKind::Directory ==> j + 1 < done.len() && done[j + 1].asked
        == ActionView::EncryptDirectory(entry, (depth + 1) as usize) && succeeded(
        done[j + 1].reply,
    )
}

/// Whether `entry` was found, and was encrypted if it is a file or a directory.
pub open spec fn entry_done(
    entry: Seq<u8>,
    depth: usize,
    done: Seq<Exchange<DirectoryDraw>>,
) -> bool {
    exists|j: int| entry_done_at(entry, depth, done, j)
}

/// Whether the directory at `path` was listed first, and the first `n` entries
/// of the list `entries` are done.
pub open spec fn entries_done(
    path: Seq<u8>,
    depth: usize,
    entries: Seq<Seq<u8>>,
    n: int,
    done: Seq<Exchange<DirectoryDraw>>,
) -> bool {
    &&& done.len() > 0
    &&& done[0].asked == ActionView::ListDirectory(path)
    &&& done[0].reply matches Reply::Entries(Ok(listing))
    &&& listing.entries == entries
    &&& n <= entries.len()
    &&& forall|i: int| 0 <= i < n ==> entry_done(#[trigger] entries[i], depth, done)
}

proof fn lemma_entries_extend(
    path: Seq<u8>,
    depth: usize,
    entries: Seq<Seq<u8>>,
    n: int,
    done: Seq<Exchange<DirectoryDraw>>,
)
    requires
        done.len() > 0,
        entries_done(path, depth, entries, n, done.drop_last()),
    ensures
        entries_done(path, depth, entries, n, done),
{
    let before = done.drop_last();
    assert forall|i: int| 0 <= i < n implies entry_done(#[trigger] entries[i], depth, done) by {
        let j = choose|j: int| entry_done_at(entries[i], depth, before, j);
        assert(entry_done_at(entries[i], depth, before, j));
        assert(entry_done_at(entries[i], depth, done, j));
    }
}

/// What has happened before the state that the exchanges `done` lead to.
spec fn directory_encryption_holds(
    path: Seq<u8>,
    depth: usize,
    key: Seq<u8>,
    done: Seq<Exchange<DirectoryDraw>>,
) -> bool {
    match directory_encryption_at(path, depth, done) {
        Progress::Running(EncryptDirectory::List { path: p, depth: d }) => p == path && d == depth
            && done.len() == 0,
        Progress::Running(EncryptDirectory::Look { path: p, depth: d, entries, at }) => p == path
            && d == depth && at < entries.len() && entries_done(
            path,
            depth,
            entries,
            at as int,
            done,
        ),
        Progress::Running(EncryptDirectory::Descend { path: p, depth: d, entries, at }) => {
            &&& p == path
            &&& d == depth
            &&& at < entries.len()
            &&& entries_done(path, depth, entries, at as int, done)
            &&& done.last().asked == ActionView::Stat(entries[at as int])
            &&& done.last().reply matches Reply::Meta(Ok((kind, _)))
            &&& kind == FileKind::Directory
        },
        Progress::Running(EncryptDirectory::EncryptEntry { path: p, depth: d, entries, at }) => {
            &&& p == path
            &&& d == depth
            &&& at < entries.len()
            &&& entries_done(path, depth, entries, at as int, done)
            &&& done.last().asked == ActionView::Stat(entries[at as int])
            &&& done.last().reply matches Reply::Meta(Ok((kind, _)))
            &&& kind == FileKind::File
        },
        Progress::Running(EncryptDirectory::Seal { .. }) => false,
        Progress::Running(EncryptDirectory::WriteMarker { path: p, sealed }) => {
            &&& p == path
            &&& all_entries_done(path, depth, done)
            &&& simple_opened(sealed, key) == Ok::<Seq<u8>, CryptoError>(
                encode_utf8(directory_name(path)),
            )
        },
        Progress::Running(EncryptDirectory::Rename { path: p, target }) => {
            &&& p == path
            &&& target == join_of(parent_or_dot(path), encode_utf8(done.last().drawn.name))
            &&& all_entries_done(path, depth, done)
            &&& name_is_kept(path, key, done)
        },
        Progress::Finished(_) => true,
    }
}

/// Whether the directory at `path` was listed first, and every entry is done.
pub open spec fn all_entries_done(
    path: Seq<u8>,
    depth: usize,
    done: Seq<Exchange<DirectoryDraw>>,
) -> bool {
    &&& done.len() > 0
    &&& done[0].reply matches Reply::Entries(Ok(listing))
    &&& entries_done(path, depth, listing.entries, listing.entries.len() as int, done)
}

/// Whether the last exchange of `done` has written the name of the directory at
/// `path`, sealed under `key`, into the directory.
pub open spec fn name_is_kept(
    path: Seq<u8>,
    key: Seq<u8>,
    done: Seq<Exchange<DirectoryDraw>>,
) -> bool {
    &&& done.len() > 0
    &&& succeeded(done.last().reply)
    &&& done.last().asked matches Action::WriteFile(marker, sealed)
    &&& marker == join_of(path, encode_utf8(DIR_MARKER@))
    &&& simple_opened(sealed, key) == Ok::<Seq<u8>, CryptoError>(encode_utf8(directory_name(path)))
}

proof fn lemma_directory_encryption(
    path: Seq<u8>,
    depth: usize,
    key: Seq<u8>,
    done: Seq<Exchange<DirectoryDraw>>,
)
    requires
        is_directory_encryption(path, depth, key, done),
    ensures
        directory_encryption_holds(path, depth, key, done),
    decreases done.len(),
{
    if done.len() > 0 {
        let before = done.drop_last();
        lemma_directory_encryption(path, depth, key, before);
        match directory_encryption_at(path, depth, before)->Running_0 {
            EncryptDirectory::List { .. } => {
                assert(directory_encryption_holds(path, depth, key, done));
            },
            EncryptDirectory::Look { entries, at, .. } => {
                lemma_entries_extend(path, depth, entries, at as int, done);
                if let Reply::Meta(Ok((kind, _))) = done.last().reply {
                    if kind == FileKind::Symlink || kind == FileKind::Other {
                        assert(entry_done_at(entries[at as int], depth, done, done.len() - 1));
                        assert(entries_done(path, depth, entries, at + 1, done));
                    }
                }
                assert(directory_encryption_holds(path, depth, key, done));
            },
            EncryptDirectory::Descend { entries, at, .. } => {
                lemma_entries_extend(path, depth, entries, at as int, done);
                if succeeded(done.last().reply) {
                    assert(entry_done_at(entries[at as int], depth, done, done.len() - 2));
                    assert(entries_done(path, depth, entries, at + 1, done));
                }
                assert(directory_encryption_holds(path, depth, key, done));
            },
            EncryptDirectory::EncryptEntry { entries, at, .. } => {
                lemma_entries_extend(path, depth, entries, at as int, done);
                if succeeded(done.last().reply) {
                    assert(entry_done_at(entries[at as int], depth, done, done.len() - 2));
                    assert(entries_done(path, depth, entries, at + 1, done));
                }
                assert(directory_encryption_holds(path, depth, key, done));
            },
            EncryptDirectory::WriteMarker { .. } => {
                let entries = before[0].reply->Entries_0->Ok_0.entries;
                lemma_entries_extend(path, depth, entries, entries.len() as int, done);
                assert(directory_encryption_holds(path, depth, key, done));
            },
            _ => {
                assert(directory_encryption_holds(path, depth, key, done));
            },
        }
    }
}

/// A directory loses its name only when everything in it is encrypted, and its
/// name is kept in it, sealed under the key. It gets a random name, and stays in
/// the directory that it lies in.
pub proof fn law_renamed_only_when_encrypted(
    path: Seq<u8>,
    depth: usize,
    key: Seq<u8>,
    done: Seq<Exchange<DirectoryDraw>>,
)
    requires
        is_directory_encryption(path, depth, key, done),
        directory_encryption_at(path, depth, done) matches Progress::Running(s) && s.pending()
            is Rename,
    ensures
        directory_encryption_at(path, depth, done)->Running_0.pending() matches Action::Rename(
            from,
            target,
        ) && from == path && target == join_of(
            parent_or_dot(path),
            encode_utf8(done.last().drawn.name),
        ) && parent_of(target) == Some(parent_or_dot(path)),
        is_random_name(done.last().drawn.name),
        all_entries_done(path, depth, done),
        name_is_kept(path, key, done),
{
    lemma_directory_encryption(path, depth, key, done);
    law_random_names_stay(path, done.last().drawn.name);
}

/// Whether nothing failed in the exchanges `done`, but perhaps the reading of
/// single entries of the directory, which are left out.
pub open spec fn goes_well(done: Seq<Exchange<DirectoryDraw>>) -> bool {
    forall|i: int|
        0 <= i < done.len() ==> !failed((#[trigger] done[i]).reply) || (
        done[i].reply matches Reply::Entries(Ok(_)))
}

/// An encryption of a directory in which nothing fails succeeds, if the directory
/// has a name that the cipher accepts and does not lie too deep.
pub proof fn law_faithful_directory_encryption_succeeds(
    path: Seq<u8>,
    depth: usize,
    key: Seq<u8>,
    done: Seq<Exchange<DirectoryDraw>>,
)
    requires
        is_directory_encryption(path, depth, key, done),
        file_name_of(path) is Some,
        cipher_accepts(encode_utf8(directory_name(path)).len()),
        depth <= MAX_DEPTH,
        goes_well(done),
    ensures
        directory_encryption_at(path, depth, done) matches Progress::Finished(r) ==> r is Ok,
    decreases done.len(),
{
    if done.len() > 0 {
        let before = done.drop_last();
        assert forall|i: int| 0 <= i < before.len() implies !failed((#[trigger] before[i]).reply)
            || (before[i].reply matches Reply::Entries(Ok(_))) by {
            assert(before[i] == done[i]);
        }
        law_faithful_directory_encryption_succeeds(path, depth, key, before);
        lemma_directory_encryption(path, depth, key, before);
        let last = done[done.len() - 1];
        assert(!failed(last.reply) || (last.reply matches Reply::Entries(Ok(_))));
    }
}

/// Only what was found to be a regular file is encrypted as a file, and only
/// what was found to be a directory is entered: symbolic links are not followed.
pub proof fn law_links_are_not_followed(
    path: Seq<u8>,
    depth: usize,
    key: Seq<u8>,
    done: Seq<Exchange<DirectoryDraw>>,
    i: int,
)
    requires
        is_directory_encryption(path, depth, key, done),
        0 <= i < done.len(),
    ensures
        match done[i].asked {
            Action::EncryptFile(entry) => i > 0 && done[i - 1].asked == ActionView::Stat(entry) && (
            done[i - 1].reply matches Reply::Meta(Ok((kind, _))) && kind == FileKind::File),
            Action::EncryptDirectory(entry, below) => below == depth + 1 && below <= MAX_DEPTH + 1
                && i > 0 && done[i - 1].asked == ActionView::Stat(entry) && (done[i
                - 1].reply matches Reply::Meta(Ok((kind, _))) && kind == FileKind::Directory),
            _ => true,
        },
    decreases done.len(),
{
    if i < done.len() - 1 {
        law_links_are_not_followed(path, depth, key, done.drop_last(), i);
    } else {
        lemma_directory_encryption(path, depth, key, done.drop_last());
        lemma_depth_is_allowed(path, depth, key, done);
    }
}

proof fn lemma_depth_is_allowed(
    path: Seq<u8>,
    depth: usize,
    key: Seq<u8>,
    done: Seq<Exchange<DirectoryDraw>>,
)
    requires
        is_directory_encryption(path, depth, key, done),
        done.len() > 0,
    ensures
        depth <= MAX_DEPTH,
    decreases done.len(),
{
    if done.len() > 1 {
        lemma_depth_is_allowed(path, depth, key, done.drop_last());
    } else {
        assert(done.drop_last() =~= Seq::empty());
    }
}

/// Whether the encryption asks for `action` next.
pub open spec fn asks(
    next: Progress<EncryptDirectoryView, Seq<u8>, Seq<char>>,
    action: ActionView,
) -> bool {
    next matches Progress::Running(s) && s.pending() == action
}

/// Whether the encryption ends with `error`.
pub open spec fn ends_with(
    next: Progress<EncryptDirectoryView, Seq<u8>, Seq<char>>,
    error: FileErrorView,
) -> bool {
    next matches Progress::Finished(r) && r == Err::<(), FileErrorView>(error)
}

/// Whether the encryption goes on with the first entry that it has not looked at,
/// or, if there is none left, with the name of the directory.
pub open spec fn goes_on(path: Seq<u8>, done: Seq<Exchange<DirectoryDraw>>, next: Progress<
    EncryptDirectoryView,
    Seq<u8>,
    Seq<char>,
>) -> bool {
    if looked(done) < listed(done).len() {
        asks(next, Action::Stat(listed(done)[looked(done) as int]))
    } else if file_name_of(path) is None {
        ends_with(next, FsError::InvalidDirectoryName)
    } else {
        match done.last().drawn.sealed {
            Ok(sealed) => asks(
                next,
                Action::WriteFile(join_of(path, encode_utf8(".dirname.enc"@)), sealed),
            ),
            Err(e) => ends_with(next, FsError::Crypto(e)),
        }
    }
}

/// Where an encryption stands, by what it has looked at.
proof fn lemma_course(
    path: Seq<u8>,
    depth: usize,
    key: Seq<u8>,
    done: Seq<Exchange<DirectoryDraw>>,
)
    requires
        is_directory_encryption(path, depth, key, done),
        forall|i: int|
            0 <= i < done.len() ==> ((#[trigger] done[i]).reply matches Reply::Entries(Ok(listing))
                ==> listing.entries.len() <= usize::MAX),
    ensures
        match directory_encryption_at(path, depth, done) {
            Progress::Running(EncryptDirectory::List { path: p, depth: d }) => p == path && d
                == depth && done.len() == 0,
            Progress::Running(EncryptDirectory::Look { path: p, depth: d, entries, at }) => p
                == path && d == depth && entries == listed(done) && at == looked(done) && at
                < entries.len() <= usize::MAX,
            Progress::Running(EncryptDirectory::Descend { path: p, depth: d, entries, at }) => p
                == path && d == depth && entries == listed(done) && at + 1 == looked(done) && at
                < entries.len() <= usize::MAX,
            Progress::Running(EncryptDirectory::EncryptEntry { path: p, depth: d, entries, at }) => {
                p == path && d == depth && entries == listed(done) && at + 1 == looked(done) && at
                    < entries.len() <= usize::MAX
            },
            Progress::Running(EncryptDirectory::Seal { .. }) => false,
            Progress::Running(EncryptDirectory::WriteMarker { path: p, .. }) => p == path,
            Progress::Running(EncryptDirectory::Rename { path: p, .. }) => p == path,
            Progress::Finished(_) => true,
        },
    decreases done.len(),
{
    if done.len() > 0 {
        let before = done.drop_last();
        assert forall|i: int| 0 <= i < before.len() implies (
        (#[trigger] before[i]).reply matches Reply::Entries(Ok(listing)) ==> listing.entries.len()
            <= usize::MAX) by {
            assert(before[i] == done[i]);
        }
        lemma_course(path, depth, key, before);
        let last = done[done.len() - 1];
        assert(last.reply matches Reply::Entries(Ok(listing)) ==> listing.entries.len()
            <= usize::MAX);
        if before.len() == 0 {
            assert(looked(before) == 0);
        }
    }
}

/// What the encryption of a directory asks for follows from the answers to what it
/// has asked for before: it lists the directory, looks at every entry in turn,
/// encrypts a file as a file and a directory as a directory, whatever their size,
/// passes over the rest, writes the sealed name of the directory into it, and gives
/// it a random name. The first failure ends it.
pub proof fn law_directory_encryption_follows_its_course(
    path: Seq<u8>,
    depth: usize,
    key: Seq<u8>,
    done: Seq<Exchange<DirectoryDraw>>,
)
    requires
        is_directory_encryption(path, depth, key, done),
        forall|i: int|
            0 <= i < done.len() ==> ((#[trigger] done[i]).reply matches Reply::Entries(Ok(listing))
                ==> listing.entries.len() <= usize::MAX),
    ensures
        ({
            let next = directory_encryption_at(path, depth, done);
            if done.len() == 0 {
                if depth > 50 {
                    ends_with(next, FsError::DepthExceeded(path))
                } else {
                    asks(next, Action::ListDirectory(path))
                }
            } else {
                let last = done.last();
                match (last.asked, last.reply) {
                    (Action::ListDirectory(_), Reply::Entries(r)) => match r {
                        Ok(_) => goes_on(path, done, next),
                        Err(text) => ends_with(next, FsError::Io(text)),
                    },
                    (Action::Stat(entry), Reply::Meta(r)) => match r {
                        Ok((FileKind::File, _)) => asks(next, Action::EncryptFile(entry)),
                        Ok((FileKind::Directory, _)) => asks(
                            next,
                            Action::EncryptDirectory(entry, (depth + 1) as usize),
                        ),
                        Ok(_) => goes_on(path, done, next),
                        Err(text) => ends_with(next, FsError::Io(text)),
                    },
                    (Action::EncryptFile(_), Reply::Outcome(r)) => match r {
                        Ok(_) => goes_on(path, done, next),
                        Err(e) => ends_with(next, e),
                    },
                    (Action::EncryptDirectory(_, _), Reply::Outcome(r)) => match r {
                        Ok(_) => goes_on(path, done, next),
                        Err(e) => ends_with(next, e),
                    },
                    (Action::WriteFile(_, _), Reply::Done(r)) => match r {
                        Ok(_) => asks(
                            next,
                            Action::Rename(
                                path,
                                join_of(parent_or_dot(path), encode_utf8(last.drawn.name)),
                            ),
                        ),
                        Err(text) => ends_with(next, FsError::Io(text)),
                    },
                    (Action::Rename(_, _), Reply::Done(r)) => match r {
                        Ok(_) => next matches Progress::Finished(Ok(_)),
                        Err(text) => ends_with(next, FsError::Io(text)),
                    },
                    _ => false,
                }
            }
        }),
{
    if done.len() > 0 {
        let before = done.drop_last();
        assert forall|i: int| 0 <= i < before.len() implies (
        (#[trigger] before[i]).reply matches Reply::Entries(Ok(listing)) ==> listing.entries.len()
            <= usize::MAX) by {
            assert(before[i] == done[i]);
        }
        lemma_course(path, depth, key, before);
        let last = done[done.len() - 1];
        assert(last.reply matches Reply::Entries(Ok(listing)) ==> listing.entries.len()
            <= usize::MAX);
        if before.len() == 0 {
            assert(looked(before) == 0);
        }
    }
}

impl EncryptDirectory<Vec<u8>, Vec<Vec<u8>>> {
    /// Begins to encrypt the directory at `path`, this deep.
    pub fn begin(path: &[u8], depth: usize) -> (r: Progress<Self, Vec<u8>, String>)
        requires
            name_can_be_sealed(path@),
        ensures
            progress_view(r) == directory_encryption(path@, depth),
            r matches Progress::Running(op) ==> op@.wf(),
    {
        if depth > MAX_DEPTH {
            return Progress::Finished(Err(FsError::DepthExceeded(copied(path))));
        }
        Progress::Running(EncryptDirectory::List { path: copied(path), depth })
    }

    /// The action that the encryption waits for.
    pub fn action(&self) -> (act: Action<Vec<u8>, String>)
        requires
            self@.wf(),
            !(self is Seal),
        ensures
            act@ == self@.pending(),
    {
        match self {
            EncryptDirectory::List { path, .. } => Action::ListDirectory(copied(path.as_slice())),
            EncryptDirectory::Look { entries, at, .. } => {
                Action::Stat(copied(entries[*at].as_slice()))
            },
            EncryptDirectory::Descend { depth, entries, at, .. } => {
                Action::EncryptDirectory(copied(entries[*at].as_slice()), *depth + 1)
            },
            EncryptDirectory::EncryptEntry { entries, at, .. } => {
                Action::EncryptFile(copied(entries[*at].as_slice()))
            },
            EncryptDirectory::Seal { path } => Action::ListDirectory(copied(path.as_slice())),
            EncryptDirectory::WriteMarker { path, sealed } => {
                let marker = join(path.as_slice(), DIR_MARKER.as_bytes());
                Action::WriteFile(marker, copied(sealed.as_slice()))
            },
            EncryptDirectory::Rename { path, target } => {
                Action::Rename(copied(path.as_slice()), copied(target.as_slice()))
            },
        }
    }
}

/// Turns to the entry with index `at`.
fn enter(path: Vec<u8>, depth: usize, entries: Vec<Vec<u8>>, at: usize) -> (r: Progress<
    EncryptDirectory<Vec<u8>, Vec<Vec<u8>>>,
    Vec<u8>,
    String,
>)
    requires
        depth <= MAX_DEPTH,
        name_can_be_sealed(path@),
    ensures
        progress_view(r) == entering(path@, depth, list_view(entries), at as int),
        r matches Progress::Running(next) ==> next@.wf(),
{
    if at < entries.len() {
        return Progress::Running(EncryptDirectory::Look { path, depth, entries, at });
    }
    if file_name(path.as_slice()).is_none() {
        return Progress::Finished(Err(FsError::InvalidDirectoryName));
    }
    Progress::Running(EncryptDirectory::Seal { path })
}

/// Goes on with the encryption of a directory after a reply, with this random
/// name, up to the sealing of the directory's name.
pub fn encrypt_directory_with(
    op: EncryptDirectory<Vec<u8>, Vec<Vec<u8>>>,
    reply: FileReply,
    name: &str,
) -> (r: (
    Progress<EncryptDirectory<Vec<u8>, Vec<Vec<u8>>>, Vec<u8>, String>,
    Option<Notice<Vec<u8>, String>>,
))
    requires
        op@.wf(),
        !(op is Seal),
        answers(op@.pending(), reply@),
    ensures
        (progress_view(r.0), say_view(r.1)) == op@.after(reply@, name@),
        r.0 matches Progress::Running(next) ==> next@.wf(),
{
    match (op, reply) {
        (EncryptDirectory::List { path, depth }, Reply::Entries(Ok(listing))) => {
            (enter(path, depth, listing.entries, 0), None)
        },
        (EncryptDirectory::Look { path, depth, entries, at }, Reply::Meta(Ok((kind, _)))) => {
            match kind {
                FileKind::Symlink => {
                    let shown = copied(entries[at].as_slice());
                    (
                        enter(path, depth, entries, at + 1),
                        Some(Notice::SkippingSymlink(shown)),
                    )
                },
                FileKind::Directory => {
                    (
                        Progress::Running(EncryptDirectory::Descend { path, depth, entries, at }),
                        None,
                    )
                },
                FileKind::File => {
                    (
                        Progress::Running(
                            EncryptDirectory::EncryptEntry { path, depth, entries, at },
                        ),
                        None,
                    )
                },
                FileKind::Other => (enter(path, depth, entries, at + 1), None),
            }
        },
        (EncryptDirectory::Descend { path, depth, entries, at }, Reply::Outcome(Ok(_))) => {
            (enter(path, depth, entries, at + 1), None)
        },
        (EncryptDirectory::EncryptEntry { path, depth, entries, at }, Reply::Outcome(Ok(_))) => {
            (enter(path, depth, entries, at + 1), None)
        },
        (EncryptDirectory::WriteMarker { path, sealed: _ }, Reply::Done(Ok(_))) => {
            let dir = parent_directory(path.as_slice());
            let target = join(dir.as_slice(), name.as_bytes());
            (Progress::Running(EncryptDirectory::Rename { path, target }), None)
        },
        (EncryptDirectory::Rename { path, target }, Reply::Done(Ok(_))) => {
            let shown = match file_name(path.as_slice()) {
                Some(name) => lossy_text(name),
                None => String::new(),
            };
            (Progress::Finished(Ok(())), Some(Notice::DirectoryEncrypted(shown, target)))
        },
        (_, Reply::Entries(Err(text))) => (Progress::Finished(Err(FsError::Io(text))), None),
        (_, Reply::Meta(Err(text))) => (Progress::Finished(Err(FsError::Io(text))), None),
        (_, Reply::Done(Err(text))) => (Progress::Finished(Err(FsError::Io(text))), None),
        (_, Reply::Outcome(Err(e))) => (Progress::Finished(Err(e)), None),
        (_, _) => (Progress::Finished(Ok(())), None),
    }
}

/// Goes on with the encryption of a directory after a reply.
pub fn encrypt_directory_recursive(
    op: EncryptDirectory<Vec<u8>, Vec<Vec<u8>>>,
    reply: FileReply,
    key: &SecureKey,
) -> (r: (
    Progress<EncryptDirectory<Vec<u8>, Vec<Vec<u8>>>, Vec<u8>, String>,
    Option<Notice<Vec<u8>, String>>,
))
    requires
        op@.wf(),
        !(op is Seal),
        answers(op@.pending(), reply@),
    ensures
        exists|drawn: DirectoryDraw| #[trigger]
            op@.can_draw(reply@, drawn, key@) && (progress_view(r.0), say_view(r.1))
                == op@.after_sealing(reply@, drawn),
        r.0 matches Progress::Running(next) ==> next@.wf() && !(next is Seal),
{
    let name = new_name();
    let ghost before = op@;
    let ghost said = reply@;
    let (next, say) = encrypt_directory_with(op, reply, name.as_str());
    match next {
        Progress::Running(EncryptDirectory::Seal { path }) => {
            let text = match file_name(path.as_slice()) {
                Some(name) => lossy_text(name),
                None => String::new(),
            };
            proof {
                let name = file_name_of(path@)->Some_0;
                if valid_utf8(name) {
                    decode_utf8_encode_utf8(name);
                }
            }
            let sealed = simple_encrypt_data(text.as_str().as_bytes(), key);
            let ghost drawn = DirectoryDraw {
                name: name@,
                sealed: bytes_view(sealed),
            };
            assert(before.can_draw(said, drawn, key@));
            match sealed {
                Ok(sealed) => (
                    Progress::Running(EncryptDirectory::WriteMarker { path, sealed }),
                    say,
                ),
                Err(e) => (Progress::Finished(Err(FsError::Crypto(e))), say),
            }
        },
        other => {
            proof {
                let drawn = DirectoryDraw { name: name@, sealed: Err(CryptoError::EncryptData) };
                assert(before.can_draw(said, drawn, key@));
            }
            (other, say)
        },
    }
}

/// A link is said to be skipped, and a directory to be encrypted once it has its new
/// path. Nothing else is said.
pub proof fn law_directory_encryption_says_what_happens(
    s: EncryptDirectoryView,
    reply: ReplyView,
    drawn: DirectoryDraw,
)
    requires
        !(s is Seal),
        answers(s.pending(), reply),
    ensures
        ({
            let said = s.after_sealing(reply, drawn).1;
            match (s.pending(), reply) {
                (Action::Stat(entry), Reply::Meta(Ok((FileKind::Symlink, _)))) => said == Some(
                    NoticeView::SkippingSymlink(entry),
                ),
                (Action::Rename(from, to), Reply::Done(Ok(_))) => {
                    &&& said matches Some(Notice::DirectoryEncrypted(name, path))
                    &&& path == to
                    &&& name == lossy_of(file_name_of(from)->Some_0)
                },
                _ => said is None,
            }
        }),
{
}

} // verus!

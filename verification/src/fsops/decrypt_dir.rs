//! Decryption of a directory: of its name, then of everything in it. What goes
//! wrong with one part is recorded, and the rest goes on.

use vstd::prelude::*;
use vstd::utf8::{decode_utf8_encode_utf8, encode_utf8, encode_utf8_valid_utf8, valid_utf8};
use crate::bytes::{copied, same_bytes};
use crate::crypto::key::{bytes_view, simple_opened};
use crate::crypto::primitives::{cipher_returns, NONCE_LEN, TAG_LEN};
use crate::crypto::{simple_decrypt_data, CryptoError, SecureKey};
use crate::fsops::action::{
    answers, list_view, listed, looked, outcome_view, progress_view, say_view, succeeded,
    texts_view, troubles_view, Action, ActionView, Exchange, FileKind, FileReply, Notice,
    NoticeView, Progress, Reply, ReplyView, Trouble, TroubleView,
};
use crate::fsops::encrypt_dir::{directory_name, MAX_DEPTH};
use crate::fsops::error::{FileErrorView, FsError};
use crate::fsops::naming::{
    get_unique_path, is_random_name, law_random_names_stay, law_variants_stay, unique_path_of,
    VARIANT_LIMIT,
};
use crate::fsops::stats::{
    has_ciphertext_name, is_ciphertext_name, trouble_says, trouble_text, EncryptionStats,
    DIR_MARKER,
};
use crate::paths::{
    extension_of, file_name, file_name_of, join, join_of, law_file_name_is_plain,
    law_join_file_name, law_join_parent, parent_directory, parent_of, parent_or_dot,
};
use crate::text::str_from_utf8;

verus! {

/// The state of the decryption of a directory.
#[derive(Debug)]
pub enum DecryptDirectory<P, L> {
    /// The file that holds the name is looked up.
    FindMarker { path: P, depth: usize },
    /// The sealed name is read.
    ReadMarker { path: P, depth: usize },
    /// `variant` of the path `wanted` is looked up, after this many variants
    /// that were taken.
    Choose { path: P, depth: usize, wanted: P, variant: P, taken: u64 },
    /// The directory gets its name back.
    Rename { path: P, depth: usize, target: P },
    /// The file that holds the name is looked up again.
    FindMoved { depth: usize, target: P },
    /// The file that holds the name is deleted.
    DeleteMarker { depth: usize, target: P },
    /// The directory is listed.
    List { current: P, depth: usize },
    /// The entry with index `at` is looked at.
    Look { depth: usize, entries: L, at: usize },
    /// The entry, a directory, is decrypted.
    Descend { depth: usize, entries: L, at: usize },
    /// The entry, a container, is decrypted.
    DecryptEntry { depth: usize, entries: L, at: usize },
}

/// [`DecryptDirectory`] as contracts speak of it.
pub type DecryptDirectoryView = DecryptDirectory<Seq<u8>, Seq<Seq<u8>>>;

impl View for DecryptDirectory<Vec<u8>, Vec<Vec<u8>>> {
    type V = DecryptDirectory<Seq<u8>, Seq<Seq<u8>>>;

    open spec fn view(&self) -> DecryptDirectory<Seq<u8>, Seq<Seq<u8>>> {
        match *self {
            DecryptDirectory::FindMarker { path, depth } => DecryptDirectory::FindMarker {
                path: path@,
                depth,
            },
            DecryptDirectory::ReadMarker { path, depth } => DecryptDirectory::ReadMarker {
                path: path@,
                depth,
            },
            DecryptDirectory::Choose { path, depth, wanted, variant, taken } => {
                DecryptDirectory::Choose {
                    path: path@,
                    depth,
                    wanted: wanted@,
                    variant: variant@,
                    taken,
                }
            },
            DecryptDirectory::Rename { path, depth, target } => DecryptDirectory::Rename {
                path: path@,
                depth,
                target: target@,
            },
            DecryptDirectory::FindMoved { depth, target } => DecryptDirectory::FindMoved {
                depth,
                target: target@,
            },
            DecryptDirectory::DeleteMarker { depth, target } => DecryptDirectory::DeleteMarker {
                depth,
                target: target@,
            },
            DecryptDirectory::List { current, depth } => DecryptDirectory::List {
                current: current@,
                depth,
            },
            DecryptDirectory::Look { depth, entries, at } => DecryptDirectory::Look {
                depth,
                entries: list_view(entries),
                at,
            },
            DecryptDirectory::Descend { depth, entries, at } => DecryptDirectory::Descend {
                depth,
                entries: list_view(entries),
                at,
            },
            DecryptDirectory::DecryptEntry { depth, entries, at } => {
                DecryptDirectory::DecryptEntry { depth, entries: list_view(entries), at }
            },
        }
    }
}

/// What follows a reply: where the decryption stands, what is shown before,
/// what is to be recorded as gone wrong, and whether a payload was restored.
#[derive(Debug)]
pub struct DirectoryTurn<S, P, T, Q> {
    /// Where the decryption stands.
    pub next: Progress<S, P, T>,
    /// What is shown.
    pub say: Option<Notice<P, T>>,
    /// What went wrong. `Q` stands for a list of troubles.
    pub troubles: Q,
    /// Whether a payload was restored.
    pub restored: bool,
}

/// [`DirectoryTurn`] as contracts speak of it.
pub type DirectoryTurnView = DirectoryTurn<
    DecryptDirectoryView,
    Seq<u8>,
    Seq<char>,
    Seq<TroubleView>,
>;

/// [`DirectoryTurn`] in a running program.
pub type DecryptDirectoryTurn = DirectoryTurn<
    DecryptDirectory<Vec<u8>, Vec<Vec<u8>>>,
    Vec<u8>,
    String,
    Vec<Trouble<Vec<u8>, String>>,
>;

/// What went wrong, as contracts speak of it.
pub open spec fn trouble_view(trouble: Option<Trouble<Vec<u8>, String>>) -> Option<TroubleView> {
    match trouble {
        Some(t) => Some(t@),
        None => None,
    }
}

impl View for DirectoryTurn<
    DecryptDirectory<Vec<u8>, Vec<Vec<u8>>>,
    Vec<u8>,
    String,
    Vec<Trouble<Vec<u8>, String>>,
> {
    type V = DirectoryTurn<DecryptDirectoryView, Seq<u8>, Seq<char>, Seq<TroubleView>>;

    open spec fn view(&self) -> DirectoryTurn<
        DecryptDirectoryView,
        Seq<u8>,
        Seq<char>,
        Seq<TroubleView>,
    > {
        DirectoryTurn {
            next: progress_view(self.next),
            say: say_view(self.say),
            troubles: troubles_view(self.troubles),
            restored: self.restored,
        }
    }
}

/// The decryption goes on with `s`, and nothing else happens.
pub open spec fn proceed(s: DecryptDirectoryView) -> DirectoryTurnView {
    DirectoryTurn { next: Progress::Running(s), say: None, troubles: Seq::empty(), restored: false }
}

/// The decryption ends with `r`, and nothing else happens.
pub open spec fn stop(r: Result<(), FileErrorView>) -> DirectoryTurnView {
    DirectoryTurn { next: Progress::Finished(r), say: None, troubles: Seq::empty(), restored: false }
}

/// The entries of the directory at `path` that could not be read.
pub open spec fn unread(path: Seq<u8>, failed: Seq<Seq<char>>) -> Seq<TroubleView> {
    Seq::new(failed.len(), |i: int| Trouble::Entry(path, failed[i]))
}

/// The file that holds the name of the directory at `path`.
pub open spec fn marker_of(path: Seq<u8>) -> Seq<u8> {
    join_of(path, encode_utf8(DIR_MARKER@))
}

/// What follows when `taken` variants of `wanted` were taken.
pub open spec fn choosing_directory(
    path: Seq<u8>,
    depth: usize,
    wanted: Seq<u8>,
    taken: u64,
) -> DirectoryTurnView {
    match unique_path_of(wanted, taken) {
        Ok(variant) => proceed(DecryptDirectory::Choose { path, depth, wanted, variant, taken }),
        Err(e) => stop(Err(e)),
    }
}

/// What follows when the entries before the one with index `at` are done.
pub open spec fn visiting(depth: usize, entries: Seq<Seq<u8>>, at: int) -> DirectoryTurnView {
    if at < entries.len() {
        proceed(DecryptDirectory::Look { depth, entries, at: at as usize })
    } else {
        stop(Ok(()))
    }
}

/// What follows when the entry with index `at` was found to be of this kind.
pub open spec fn deciding(
    depth: usize,
    entries: Seq<Seq<u8>>,
    at: usize,
    kind: FileKind,
) -> DirectoryTurnView {
    let entry = entries[at as int];
    match kind {
        FileKind::Symlink => DirectoryTurn {
            say: Some(Notice::SkippingSymlink(entry)),
            ..visiting(depth, entries, at + 1)
        },
        FileKind::Directory => proceed(DecryptDirectory::Descend { depth, entries, at }),
        FileKind::File => if is_ciphertext_name(entry) && file_name_of(entry) != Some(
            encode_utf8(DIR_MARKER@),
        ) {
            proceed(DecryptDirectory::DecryptEntry { depth, entries, at })
        } else {
            visiting(depth, entries, at + 1)
        },
        FileKind::Other => visiting(depth, entries, at + 1),
    }
}

/// What follows when the sealed name of the directory at `path` was opened.
///
/// Only the last component of the stored name counts: no marker decides in
/// which directory its directory is put.
pub open spec fn naming(
    path: Seq<u8>,
    depth: usize,
    opened: Result<Seq<u8>, CryptoError>,
) -> DirectoryTurnView {
    match opened {
        Err(e) => DirectoryTurn {
            troubles: seq![Trouble::DirectoryName(path, FsError::Crypto(e))],
            ..proceed(DecryptDirectory::List { current: path, depth })
        },
        Ok(stored) => if !valid_utf8(stored) {
            stop(Err(FsError::DirectoryNameNotUtf8))
        } else {
            match file_name_of(stored) {
                None => stop(Err(FsError::InvalidDirectoryNameInMetadata)),
                Some(base) => choosing_directory(
                    path,
                    depth,
                    join_of(parent_or_dot(path), base),
                    0,
                ),
            }
        },
    }
}

/// What follows the request to decrypt the directory at `path`, this deep.
pub open spec fn directory_decryption(path: Seq<u8>, depth: usize) -> DirectoryTurnView {
    if depth > MAX_DEPTH {
        DirectoryTurn { troubles: seq![Trouble::TooDeep(path)], ..stop(Ok(())) }
    } else {
        proceed(DecryptDirectory::FindMarker { path, depth })
    }
}

/// Whether the cipher returns when given the sealed bytes in `reply`.
pub open spec fn can_be_opened(reply: ReplyView) -> bool {
    reply matches Reply::Bytes(Ok(bytes)) ==> bytes.len() >= NONCE_LEN + TAG_LEN
        ==> cipher_returns((bytes.len() - NONCE_LEN - TAG_LEN) as nat)
}

impl DecryptDirectory<Seq<u8>, Seq<Seq<u8>>> {
    /// The action that the decryption waits for.
    pub open spec fn pending(self) -> ActionView {
        match self {
            DecryptDirectory::FindMarker { path, .. } => Action::CheckExists(marker_of(path)),
            DecryptDirectory::ReadMarker { path, .. } => Action::ReadFile(marker_of(path)),
            DecryptDirectory::Choose { variant, .. } => Action::CheckTaken(variant),
            DecryptDirectory::Rename { path, target, .. } => Action::Rename(path, target),
            DecryptDirectory::FindMoved { target, .. } => Action::CheckExists(marker_of(target)),
            DecryptDirectory::DeleteMarker { target, .. } => Action::SecureDelete(
                marker_of(target),
            ),
            DecryptDirectory::List { current, .. } => Action::ListDirectory(current),
            DecryptDirectory::Look { entries, at, .. } => Action::Stat(entries[at as int]),
            DecryptDirectory::Descend { depth, entries, at } => Action::DecryptDirectory(
                entries[at as int],
                (depth + 1) as usize,
            ),
            DecryptDirectory::DecryptEntry { entries, at, .. } => Action::DecryptFile(
                entries[at as int],
            ),
        }
    }

    /// How deep the directory lies.
    pub open spec fn depth(self) -> usize {
        match self {
            DecryptDirectory::FindMarker { depth, .. } => depth,
            DecryptDirectory::ReadMarker { depth, .. } => depth,
            DecryptDirectory::Choose { depth, .. } => depth,
            DecryptDirectory::Rename { depth, .. } => depth,
            DecryptDirectory::FindMoved { depth, .. } => depth,
            DecryptDirectory::DeleteMarker { depth, .. } => depth,
            DecryptDirectory::List { depth, .. } => depth,
            DecryptDirectory::Look { depth, .. } => depth,
            DecryptDirectory::Descend { depth, .. } => depth,
            DecryptDirectory::DecryptEntry { depth, .. } => depth,
        }
    }

    /// Whether the depth is allowed, no more variants were tried than are
    /// allowed, and there is an entry with the index.
    pub open spec fn wf(self) -> bool {
        &&& self.depth() <= MAX_DEPTH
        &&& match self {
            DecryptDirectory::Choose { taken, .. } => taken < VARIANT_LIMIT,
            DecryptDirectory::Look { entries, at, .. } => at < entries.len() <= usize::MAX,
            DecryptDirectory::Descend { entries, at, .. } => at < entries.len() <= usize::MAX,
            DecryptDirectory::DecryptEntry { entries, at, .. } => at < entries.len() <= usize::MAX,
            _ => true,
        }
    }

    /// What follows a reply, under `key`.
    pub open spec fn after(self, reply: ReplyView, key: Seq<u8>) -> DirectoryTurnView {
        let depth = self.depth();
        match (self, reply) {
            (DecryptDirectory::FindMarker { path, .. }, Reply::Answer(found)) => proceed(
                if found {
                    DecryptDirectory::ReadMarker { path, depth }
                } else {
                    DecryptDirectory::List { current: path, depth }
                },
            ),
            (DecryptDirectory::ReadMarker { path, .. }, Reply::Bytes(Ok(sealed))) => naming(
                path,
                depth,
                simple_opened(sealed, key),
            ),
            (
                DecryptDirectory::Choose { path, wanted, variant, taken, .. },
                Reply::Answer(is_taken),
            ) => if is_taken {
                choosing_directory(path, depth, wanted, (taken + 1) as u64)
            } else {
                proceed(DecryptDirectory::Rename { path, depth, target: variant })
            },
            (DecryptDirectory::Rename { target, .. }, Reply::Done(Ok(_))) => proceed(
                DecryptDirectory::FindMoved { depth, target },
            ),
            (DecryptDirectory::FindMoved { target, .. }, Reply::Answer(found)) => if found {
                proceed(DecryptDirectory::DeleteMarker { depth, target })
            } else {
                DirectoryTurn {
                    say: Some(Notice::DirectoryRestored(target, false)),
                    ..proceed(DecryptDirectory::List { current: target, depth })
                }
            },
            (DecryptDirectory::DeleteMarker { target, .. }, Reply::Outcome(r)) => DirectoryTurn {
                say: Some(Notice::DirectoryRestored(target, r is Err)),
                troubles: match r {
                    Ok(_) => Seq::empty(),
                    Err(e) => seq![Trouble::Marker(marker_of(target), e)],
                },
                ..proceed(DecryptDirectory::List { current: target, depth })
            },
            (DecryptDirectory::List { current, .. }, Reply::Entries(Ok(listing))) => {
                DirectoryTurn {
                    troubles: unread(current, listing.failed),
                    ..visiting(depth, listing.entries, 0)
                }
            },
            (DecryptDirectory::List { current, .. }, Reply::Entries(Err(text))) => DirectoryTurn {
                troubles: seq![Trouble::Listing(current, text)],
                ..stop(Ok(()))
            },
            (DecryptDirectory::Look { entries, at, .. }, Reply::Meta(Err(text))) => DirectoryTurn {
                troubles: seq![Trouble::Metadata(entries[at as int], text)],
                ..visiting(depth, entries, at + 1)
            },
            (DecryptDirectory::Look { entries, at, .. }, Reply::Meta(Ok((kind, _)))) => deciding(
                depth,
                entries,
                at,
                kind,
            ),
            (DecryptDirectory::Descend { entries, at, .. }, Reply::Outcome(Ok(_))) => visiting(
                depth,
                entries,
                at + 1,
            ),
            (DecryptDirectory::DecryptEntry { entries, at, .. }, Reply::Outcome(Ok(_))) => {
                DirectoryTurn { restored: true, ..visiting(depth, entries, at + 1) }
            },
            (DecryptDirectory::DecryptEntry { entries, at, .. }, Reply::Outcome(Err(e))) => {
                DirectoryTurn {
                    troubles: seq![Trouble::File(entries[at as int], e)],
                    ..visiting(depth, entries, at + 1)
                }
            },
            (_, Reply::Outcome(Err(e))) => stop(Err(e)),
            (_, Reply::Bytes(Err(text))) => stop(Err(FsError::Io(text))),
            (_, Reply::Done(Err(text))) => stop(Err(FsError::Io(text))),
            _ => arbitrary(),
        }
    }
}

/// A payload is counted as restored exactly when its decryption succeeded, and
/// recorded as gone wrong exactly when it failed; either way the rest goes on.
pub proof fn law_payload_is_counted(s: DecryptDirectoryView, reply: ReplyView, key: Seq<u8>)
    requires
        s.pending() is DecryptFile,
        answers(s.pending(), reply),
    ensures
        s.after(reply, key).restored == succeeded(reply),
        (s.after(reply, key).troubles.len() == 1) == !succeeded(reply),
        !succeeded(reply) ==> s.after(reply, key).troubles[0] is File,
        !(s.after(reply, key).next matches Progress::Finished(Err(_))),
{
}

/// Where the decryption of the directory at `path` stands after the exchanges
/// `done`.
pub open spec fn directory_decryption_at(
    path: Seq<u8>,
    depth: usize,
    key: Seq<u8>,
    done: Seq<Exchange<()>>,
) -> Progress<DecryptDirectoryView, Seq<u8>, Seq<char>>
    decreases done.len(),
{
    if done.len() == 0 {
        directory_decryption(path, depth).next
    } else {
        match directory_decryption_at(path, depth, key, done.drop_last()) {
            Progress::Running(s) => s.after(done.last().reply, key).next,
            Progress::Finished(r) => Progress::Finished(r),
        }
    }
}

/// Whether `done` are exchanges of the decryption of the directory at `path`
/// under `key`, from its beginning on.
pub open spec fn is_directory_decryption(
    path: Seq<u8>,
    depth: usize,
    key: Seq<u8>,
    done: Seq<Exchange<()>>,
) -> bool
    decreases done.len(),
{
    done.len() > 0 ==> {
        &&& is_directory_decryption(path, depth, key, done.drop_last())
        &&& directory_decryption_at(path, depth, key, done.drop_last()) matches Progress::Running(s)
        &&& done.last().asked == s.pending()
        &&& answers(s.pending(), done.last().reply)
    }
}

/// Whether the exchange with index `j` found what `entry` is, and the next one
/// was about decrypting it if it is a payload or a directory.
pub open spec fn entry_visited_at(
    entry: Seq<u8>,
    depth: usize,
    done: Seq<Exchange<()>>,
    j: int,
) -> bool {
    &&& 0 <= j < done.len()
    &&& done[j].asked == ActionView::Stat(entry)
    &&& done[j].reply matches Reply::Meta(Ok((kind, _))) ==> {
        &&& kind == FileKind::File && is_ciphertext_name(entry) && file_name_of(entry) != Some(
            encode_utf8(DIR_MARKER@),
        ) ==> j + 1 < done.len() && done[j + 1].asked == ActionView::DecryptFile(entry)
        &&& kind == FileKind::Directory ==> j + 1 < done.len() && done[j + 1].asked
            == ActionView::DecryptDirectory(entry, (depth + 1) as usize) && succeeded(
            done[j + 1].reply,
        )
    }
}

/// Whether `entry` was looked at, and decrypted as far as it can be.
pub open spec fn entry_visited(entry: Seq<u8>, depth: usize, done: Seq<Exchange<()>>) -> bool {
    exists|j: int| entry_visited_at(entry, depth, done, j)
}

/// Whether the exchange with index `l` listed `entries`, and the first `n` of
/// them were visited.
pub open spec fn entries_visited(
    depth: usize,
    entries: Seq<Seq<u8>>,
    n: int,
    done: Seq<Exchange<()>>,
    l: int,
) -> bool {
    &&& 0 <= l < done.len()
    &&& done[l].asked is ListDirectory
    &&& done[l].reply matches Reply::Entries(Ok(listing))
    &&& listing.entries == entries
    &&& n <= entries.len()
    &&& forall|i: int| 0 <= i < n ==> entry_visited(#[trigger] entries[i], depth, done)
}

/// Whether a list of entries was read, and the first `n` of them were visited.
pub open spec fn some_entries_visited(
    depth: usize,
    entries: Seq<Seq<u8>>,
    n: int,
    done: Seq<Exchange<()>>,
) -> bool {
    exists|l: int| entries_visited(depth, entries, n, done, l)
}

/// Whether a list of entries was read, and all of them were visited.
pub open spec fn list_visited(
    depth: usize,
    entries: Seq<Seq<u8>>,
    done: Seq<Exchange<()>>,
) -> bool {
    some_entries_visited(depth, entries, entries.len() as int, done)
}

proof fn lemma_visits_extend(
    depth: usize,
    entries: Seq<Seq<u8>>,
    n: int,
    done: Seq<Exchange<()>>,
)
    requires
        done.len() > 0,
        some_entries_visited(depth, entries, n, done.drop_last()),
    ensures
        some_entries_visited(depth, entries, n, done),
{
    let before = done.drop_last();
    let l = choose|l: int| entries_visited(depth, entries, n, before, l);
    assert(entries_visited(depth, entries, n, before, l));
    assert forall|i: int| 0 <= i < n implies entry_visited(#[trigger] entries[i], depth, done) by {
        let j = choose|j: int| entry_visited_at(entries[i], depth, before, j);
        assert(entry_visited_at(entries[i], depth, before, j));
        assert(entry_visited_at(entries[i], depth, done, j));
    }
    assert(entries_visited(depth, entries, n, done, l));
}

proof fn lemma_one_more_visit(
    depth: usize,
    entries: Seq<Seq<u8>>,
    at: int,
    done: Seq<Exchange<()>>,
    j: int,
)
    requires
        0 <= at < entries.len(),
        at <= usize::MAX,
        some_entries_visited(depth, entries, at, done),
        entry_visited_at(entries[at], depth, done, j),
    ensures
        ({
            let next = (at + 1) as usize;
            if at + 1 < entries.len() {
                some_entries_visited(depth, entries, next as int, done)
            } else {
                list_visited(depth, entries, done)
            }
        }),
{
    let next = (at + 1) as usize;
    let l = choose|l: int| entries_visited(depth, entries, at, done, l);
    assert(entries_visited(depth, entries, at, done, l));
    assert forall|i: int| 0 <= i < at + 1 implies entry_visited(
        #[trigger] entries[i],
        depth,
        done,
    ) by {
        if i == at {
            assert(entry_visited_at(entries[at], depth, done, j));
        }
    }
    assert(entries_visited(depth, entries, at + 1, done, l));
    if at + 1 < entries.len() {
        assert(next <= at + 1);
        assert(entries_visited(depth, entries, next as int, done, l));
    }
}

/// What has happened before the state that the exchanges `done` lead to.
spec fn directory_decryption_holds(
    path: Seq<u8>,
    depth: usize,
    key: Seq<u8>,
    done: Seq<Exchange<()>>,
) -> bool {
    match directory_decryption_at(path, depth, key, done) {
        Progress::Running(s) => s.depth() == depth && depth <= MAX_DEPTH && match s {
            DecryptDirectory::FindMarker { path: p, .. } => p == path,
            DecryptDirectory::ReadMarker { path: p, .. } => p == path,
            DecryptDirectory::Choose { path: p, .. } => p == path,
            DecryptDirectory::Rename { path: p, target, .. } => p == path && done.len() > 0
                && done.last().asked == ActionView::CheckTaken(target) && done.last().reply
                == ReplyView::Answer(false),
            DecryptDirectory::Look { entries, at, .. } => at < entries.len()
                && some_entries_visited(depth, entries, at as int, done),
            DecryptDirectory::Descend { entries, at, .. } => at < entries.len()
                && some_entries_visited(depth, entries, at as int, done) && done.len() > 0
                && done.last().asked == ActionView::Stat(entries[at as int]) && (
            done.last().reply matches Reply::Meta(Ok((kind, _))) && kind == FileKind::Directory),
            DecryptDirectory::DecryptEntry { entries, at, .. } => at < entries.len()
                && some_entries_visited(depth, entries, at as int, done) && done.len() > 0
                && done.last().asked == ActionView::Stat(entries[at as int]) && (
            done.last().reply matches Reply::Meta(Ok((kind, _))) && kind == FileKind::File)
                && is_ciphertext_name(entries[at as int]) && file_name_of(entries[at as int]) != Some(
                encode_utf8(DIR_MARKER@),
            ),
            _ => true,
        },
        Progress::Finished(Ok(_)) => {
            ||| depth > MAX_DEPTH
            ||| done.len() > 0 && done.last().asked is ListDirectory && (
            done.last().reply matches Reply::Entries(Err(_)))
            ||| exists|entries: Seq<Seq<u8>>| list_visited(depth, entries, done)
        },
        Progress::Finished(Err(_)) => true,
    }
}

proof fn lemma_directory_decryption(
    path: Seq<u8>,
    depth: usize,
    key: Seq<u8>,
    done: Seq<Exchange<()>>,
)
    requires
        is_directory_decryption(path, depth, key, done),
    ensures
        directory_decryption_holds(path, depth, key, done),
    decreases done.len(),
{
    if done.len() > 0 {
        let before = done.drop_last();
        let n = done.len() as int;
        lemma_directory_decryption(path, depth, key, before);
        match directory_decryption_at(path, depth, key, before)->Running_0 {
            DecryptDirectory::List { .. } => {
                if let Reply::Entries(Ok(listing)) = done.last().reply {
                    let entries = listing.entries;
                    assert(entries_visited(depth, entries, 0, done, n - 1));
                    if entries.len() == 0 {
                        assert(list_visited(depth, entries, done));
                    } else {
                        assert(some_entries_visited(depth, entries, 0, done));
                    }
                }
                assert(directory_decryption_holds(path, depth, key, done));
            },
            DecryptDirectory::Look { entries, at, .. } => {
                lemma_visits_extend(depth, entries, at as int, done);
                if !(directory_decryption_at(path, depth, key, done) matches Progress::Running(
                    DecryptDirectory::Descend { .. },
                )) && !(directory_decryption_at(path, depth, key, done) matches Progress::Running(
                    DecryptDirectory::DecryptEntry { .. },
                )) {
                    lemma_one_more_visit(depth, entries, at as int, done, n - 1);
                }
                assert(directory_decryption_holds(path, depth, key, done));
            },
            DecryptDirectory::Descend { entries, at, .. } => {
                lemma_visits_extend(depth, entries, at as int, done);
                if succeeded(done.last().reply) {
                    lemma_one_more_visit(depth, entries, at as int, done, n - 2);
                }
                assert(directory_decryption_holds(path, depth, key, done));
            },
            DecryptDirectory::DecryptEntry { entries, at, .. } => {
                lemma_visits_extend(depth, entries, at as int, done);
                lemma_one_more_visit(depth, entries, at as int, done, n - 2);
                assert(directory_decryption_holds(path, depth, key, done));
            },
            _ => {
                assert(directory_decryption_holds(path, depth, key, done));
            },
        }
    }
}

/// A decryption that ends without an error has tried every payload and every
/// directory that was listed, or has recorded that there was nothing to try: the
/// directory lies too deep, or could not be listed.
pub proof fn law_every_entry_is_tried(
    path: Seq<u8>,
    depth: usize,
    key: Seq<u8>,
    done: Seq<Exchange<()>>,
)
    requires
        is_directory_decryption(path, depth, key, done),
        directory_decryption_at(path, depth, key, done) matches Progress::Finished(Ok(_)),
    ensures
        ({
            ||| depth > MAX_DEPTH
            ||| done.last().asked is ListDirectory && (done.last().reply matches Reply::Entries(
                Err(_),
            ))
            ||| exists|entries: Seq<Seq<u8>>| list_visited(depth, entries, done)
        }),
{
    lemma_directory_decryption(path, depth, key, done);
}

/// Only what was found to be a regular file is decrypted as a file, and only
/// what was found to be a directory is entered: symbolic links are not followed.
pub proof fn law_links_are_not_entered(
    path: Seq<u8>,
    depth: usize,
    key: Seq<u8>,
    done: Seq<Exchange<()>>,
    i: int,
)
    requires
        is_directory_decryption(path, depth, key, done),
        0 <= i < done.len(),
    ensures
        match done[i].asked {
            Action::DecryptFile(entry) => is_ciphertext_name(entry) && i > 0 && done[i - 1].asked
                == ActionView::Stat(entry) && (done[i - 1].reply matches Reply::Meta(Ok((kind, _)))
                && kind == FileKind::File),
            Action::DecryptDirectory(entry, below) => below == depth + 1 && below <= MAX_DEPTH + 1
                && i > 0 && done[i - 1].asked == ActionView::Stat(entry) && (done[i
                - 1].reply matches Reply::Meta(Ok((kind, _))) && kind == FileKind::Directory),
            _ => true,
        },
    decreases done.len(),
{
    if i < done.len() - 1 {
        law_links_are_not_entered(path, depth, key, done.drop_last(), i);
    } else {
        lemma_directory_decryption(path, depth, key, done.drop_last());
    }
}

/// Nothing is changed but the directory itself, which is renamed, the file that
/// holds its name, which is deleted, and what is decrypted in it: all other
/// exchanges only look.
pub proof fn law_the_rest_is_left_alone(
    path: Seq<u8>,
    depth: usize,
    key: Seq<u8>,
    done: Seq<Exchange<()>>,
    i: int,
)
    requires
        is_directory_decryption(path, depth, key, done),
        0 <= i < done.len(),
    ensures
        match done[i].asked {
            Action::CheckExists(_) => true,
            Action::CheckTaken(_) => true,
            Action::ReadFile(_) => true,
            Action::ListDirectory(_) => true,
            Action::Stat(_) => true,
            Action::Rename(from, _) => from == path,
            Action::SecureDelete(deleted) => exists|dir: Seq<u8>| deleted == #[trigger] marker_of(
                dir,
            ),
            Action::DecryptFile(entry) => file_name_of(entry) != Some(encode_utf8(DIR_MARKER@))
                && is_ciphertext_name(entry),
            Action::DecryptDirectory(_, _) => true,
            _ => false,
        },
    decreases done.len(),
{
    if i < done.len() - 1 {
        law_the_rest_is_left_alone(path, depth, key, done.drop_last(), i);
    } else {
        lemma_directory_decryption(path, depth, key, done.drop_last());
    }
}

/// Whatever a marker says, its directory stays in the directory that it lies in,
/// and takes the place of nothing that was found.
pub proof fn law_directory_stays(
    path: Seq<u8>,
    depth: usize,
    key: Seq<u8>,
    done: Seq<Exchange<()>>,
)
    requires
        is_directory_decryption(path, depth, key, done),
        directory_decryption_at(path, depth, key, done) matches Progress::Running(s) && s.pending()
            is Rename,
    ensures
        directory_decryption_at(path, depth, key, done)->Running_0.pending() matches Action::Rename(
            from,
            target,
        ) && from == path && parent_of(target) == Some(parent_or_dot(path)) && done.last().asked
            == ActionView::CheckTaken(target) && done.last().reply == ReplyView::Answer(false),
{
    lemma_directory_decryption(path, depth, key, done);
    lemma_directory_stays(path, depth, key, done);
}

proof fn lemma_directory_stays(
    path: Seq<u8>,
    depth: usize,
    key: Seq<u8>,
    done: Seq<Exchange<()>>,
)
    requires
        is_directory_decryption(path, depth, key, done),
    ensures
        match directory_decryption_at(path, depth, key, done) {
            Progress::Running(DecryptDirectory::Choose { wanted, variant, taken, .. }) => parent_of(
                wanted,
            ) == Some(parent_or_dot(path)) && parent_of(variant) == Some(parent_or_dot(path))
                && taken < VARIANT_LIMIT,
            Progress::Running(DecryptDirectory::Rename { target, .. }) => parent_of(target) == Some(
                parent_or_dot(path),
            ),
            _ => true,
        },
    decreases done.len(),
{
    if done.len() > 0 {
        let before = done.drop_last();
        lemma_directory_stays(path, depth, key, before);
        lemma_directory_decryption(path, depth, key, before);
        match directory_decryption_at(path, depth, key, before)->Running_0 {
            DecryptDirectory::ReadMarker { .. } => {
                if let Reply::Bytes(Ok(sealed)) = done.last().reply {
                    if let Ok(stored) = simple_opened(sealed, key) {
                        law_file_name_is_plain(stored);
                        if let Some(base) = file_name_of(stored) {
                            law_join_parent(path, base);
                        }
                    }
                }
            },
            DecryptDirectory::Choose { wanted, taken, .. } => {
                let next = (taken + 1) as u64;
                if unique_path_of(wanted, next) is Ok {
                    law_variants_stay(wanted, next);
                }
            },
            _ => {},
        }
    }
}

/// A directory comes back: when the marker holds its name and nothing stands in
/// its place, it gets its name, in the directory that it was in.
pub proof fn law_directory_comes_back(
    path: Seq<u8>,
    name: Seq<char>,
    depth: usize,
    key: Seq<u8>,
    done: Seq<Exchange<()>>,
    sealed: Seq<u8>,
)
    requires
        file_name_of(path) matches Some(base) && valid_utf8(base),
        is_random_name(name),
        is_directory_decryption(join_of(parent_or_dot(path), encode_utf8(name)), depth, key, done),
        done.len() == 3,
        done[0].reply == ReplyView::Answer(true),
        done[1].reply == ReplyView::Bytes(Ok(sealed)),
        simple_opened(sealed, key) == Ok::<Seq<u8>, CryptoError>(
            encode_utf8(directory_name(path)),
        ),
        done[2].reply == ReplyView::Answer(false),
    ensures
        ({
            let hidden = join_of(parent_or_dot(path), encode_utf8(name));
            &&& directory_decryption_at(hidden, depth, key, done) matches Progress::Running(s)
            &&& s.pending() matches Action::Rename(from, target)
            &&& from == hidden
            &&& file_name_of(target) == file_name_of(path)
            &&& parent_of(target) == parent_of(path)
        }),
{
    let hidden = join_of(parent_or_dot(path), encode_utf8(name));
    let base = file_name_of(path)->Some_0;
    let two = done.drop_last();
    let one = two.drop_last();
    assert(one.drop_last().len() == 0);
    assert(directory_decryption_at(hidden, depth, key, one.drop_last()) == directory_decryption(
        hidden,
        depth,
    ).next);
    assert(is_directory_decryption(hidden, depth, key, two));
    assert(is_directory_decryption(hidden, depth, key, one));
    law_file_name_is_plain(path);
    law_random_names_stay(path, name);
    decode_utf8_encode_utf8(base);
    law_join_file_name(Seq::empty(), base);
    assert(join_of(Seq::empty(), base) =~= base);
    law_join_parent(path, base);
    law_join_file_name(parent_or_dot(path), base);
    encode_utf8_valid_utf8(directory_name(path));
}

/// Whether the decryption asks for `action` next.
pub open spec fn asks(
    next: Progress<DecryptDirectoryView, Seq<u8>, Seq<char>>,
    action: ActionView,
) -> bool {
    next matches Progress::Running(s) && s.pending() == action
}

/// Whether the decryption ends with `error`.
pub open spec fn ends_with(
    next: Progress<DecryptDirectoryView, Seq<u8>, Seq<char>>,
    error: FileErrorView,
) -> bool {
    next matches Progress::Finished(r) && r == Err::<(), FileErrorView>(error)
}

/// Whether the decryption goes on with the first entry that it has not looked at,
/// or ends well, if there is none left.
pub open spec fn goes_on(done: Seq<Exchange<()>>, next: Progress<
    DecryptDirectoryView,
    Seq<u8>,
    Seq<char>,
>) -> bool {
    if looked(done) < listed(done).len() {
        asks(next, Action::Stat(listed(done)[looked(done) as int]))
    } else {
        next matches Progress::Finished(Ok(_))
    }
}

/// Where a decryption stands, by what it has looked at.
proof fn lemma_course(path: Seq<u8>, depth: usize, key: Seq<u8>, done: Seq<Exchange<()>>)
    requires
        is_directory_decryption(path, depth, key, done),
        forall|i: int|
            0 <= i < done.len() ==> ((#[trigger] done[i]).reply matches Reply::Entries(Ok(listing))
                ==> listing.entries.len() <= usize::MAX),
    ensures
        match directory_decryption_at(path, depth, key, done) {
            Progress::Running(s) => s.depth() == depth && match s {
                DecryptDirectory::Look { entries, at, .. } => entries == listed(done) && at
                    == looked(done) && at < entries.len() <= usize::MAX,
                DecryptDirectory::Descend { entries, at, .. } => entries == listed(done) && at + 1
                    == looked(done) && at < entries.len() <= usize::MAX,
                DecryptDirectory::DecryptEntry { entries, at, .. } => entries == listed(done) && at
                    + 1 == looked(done) && at < entries.len() <= usize::MAX,
                _ => {
                    &&& looked(done) == 0
                    &&& match s {
                        DecryptDirectory::FindMarker { path: p, .. } => p == path && done.len()
                            == 0,
                        DecryptDirectory::ReadMarker { path: p, .. } => p == path && done.len()
                            == 1,
                        DecryptDirectory::Choose { path: p, wanted, variant, taken, .. } => {
                            &&& p == path
                            &&& done.len() == 2 + taken
                            &&& taken < 10000
                            &&& wanted_place(path, key, done) == Some(wanted)
                        },
                        DecryptDirectory::Rename { path: p, .. } => p == path && done.len()
                            >= 3,
                        DecryptDirectory::FindMoved { target, .. } => done.len() > 3
                            && done.last().asked == ActionView::Rename(path, target),
                        DecryptDirectory::DeleteMarker { target, .. } => done.len() > 4
                            && done[done.len() - 2].asked == ActionView::Rename(path, target),
                        _ => true,
                    }
                },
            },
            Progress::Finished(_) => true,
        },
    decreases done.len(),
{
    if done.len() > 0 {
        let before = done.drop_last();
        assert forall|i: int| 0 <= i < before.len() implies (
        (#[trigger] before[i]).reply matches Reply::Entries(Ok(listing)) ==> listing.entries.len()
            <= usize::MAX) by {
            assert(before[i] == done[i]);
        }
        lemma_course(path, depth, key, before);
        let last = done[done.len() - 1];
        assert(last.reply matches Reply::Entries(Ok(listing)) ==> listing.entries.len()
            <= usize::MAX);
        if done.len() > 2 {
            assert(before[1] == done[1]);
        }
    }
}

/// Where the directory at `path` goes by the name that the exchanges `done` have
/// read, if nothing stands there: next to where it is, under the last component of
/// the name.
pub open spec fn wanted_place(path: Seq<u8>, key: Seq<u8>, done: Seq<Exchange<()>>) -> Option<
    Seq<u8>,
> {
    match done[1].reply {
        Reply::Bytes(Ok(sealed)) => match simple_opened(sealed, key) {
            Ok(stored) => match file_name_of(stored) {
                Some(base) => Some(join_of(parent_or_dot(path), base)),
                None => None,
            },
            Err(_) => None,
        },
        _ => None,
    }
}

/// What the decryption of a directory asks for follows from the answers to what it
/// has asked for before: it reads the sealed name of the directory, if there is
/// one, gives the directory the name or its first free variant, deletes the file
/// that held it, lists the directory, and looks at every entry in turn. A payload is
/// decrypted as a file and a directory as a directory, whatever their size; the rest
/// is passed over, and what fails with one entry does not keep it from the next.
pub proof fn law_directory_decryption_follows_its_course(
    path: Seq<u8>,
    depth: usize,
    key: Seq<u8>,
    done: Seq<Exchange<()>>,
)
    requires
        is_directory_decryption(path, depth, key, done),
        forall|i: int|
            0 <= i < done.len() ==> ((#[trigger] done[i]).reply matches Reply::Entries(Ok(listing))
                ==> listing.entries.len() <= usize::MAX),
    ensures
        ({
            let next = directory_decryption_at(path, depth, key, done);
            let n = done.len();
            let marker = encode_utf8(".dirname.enc"@);
            if n == 0 {
                if depth > 50 {
                    next matches Progress::Finished(Ok(_))
                } else {
                    asks(next, Action::CheckExists(join_of(path, marker)))
                }
            } else {
                let last = done.last();
                match (last.asked, last.reply) {
                    (Action::CheckExists(_), Reply::Answer(found)) => if n == 1 {
                        if found {
                            asks(next, Action::ReadFile(join_of(path, marker)))
                        } else {
                            asks(next, Action::ListDirectory(path))
                        }
                    } else {
                        &&& done[n - 2].asked matches Action::Rename(_, target)
                        &&& if found {
                            asks(next, Action::SecureDelete(join_of(target, marker)))
                        } else {
                            asks(next, Action::ListDirectory(target))
                        }
                    },
                    (Action::ReadFile(_), Reply::Bytes(r)) => match r {
                        Ok(sealed) => match simple_opened(sealed, key) {
                            Ok(stored) => if !valid_utf8(stored) {
                                ends_with(next, FsError::DirectoryNameNotUtf8)
                            } else {
                                match file_name_of(stored) {
                                    Some(base) => asks(
                                        next,
                                        Action::CheckTaken(join_of(parent_or_dot(path), base)),
                                    ),
                                    None => ends_with(
                                        next,
                                        FsError::InvalidDirectoryNameInMetadata,
                                    ),
                                }
                            },
                            Err(_) => asks(next, Action::ListDirectory(path)),
                        },
                        Err(text) => ends_with(next, FsError::Io(text)),
                    },
                    (Action::CheckTaken(variant), Reply::Answer(taken)) => if !taken {
                        asks(next, Action::Rename(path, variant))
                    } else {
                        &&& wanted_place(path, key, done) matches Some(wanted)
                        &&& match unique_path_of(wanted, (n - 2) as u64) {
                            Ok(other) => asks(next, Action::CheckTaken(other)),
                            Err(e) => ends_with(next, e),
                        }
                    },
                    (Action::Rename(_, target), Reply::Done(r)) => match r {
                        Ok(_) => asks(next, Action::CheckExists(join_of(target, marker))),
                        Err(text) => ends_with(next, FsError::Io(text)),
                    },
                    (Action::SecureDelete(_), Reply::Outcome(_)) => {
                        done[n - 3].asked matches Action::Rename(_, target) && asks(
                            next,
                            Action::ListDirectory(target),
                        )
                    },
                    (Action::ListDirectory(_), Reply::Entries(r)) => match r {
                        Ok(_) => goes_on(done, next),
                        Err(_) => next matches Progress::Finished(Ok(_)),
                    },
                    (Action::Stat(entry), Reply::Meta(r)) => match r {
                        Ok((FileKind::Directory, _)) => asks(
                            next,
                            Action::DecryptDirectory(entry, (depth + 1) as usize),
                        ),
                        Ok((FileKind::File, _)) => if extension_of(entry) == Some(
                            encode_utf8("enc"@),
                        ) && file_name_of(entry) != Some(marker) {
                            asks(next, Action::DecryptFile(entry))
                        } else {
                            goes_on(done, next)
                        },
                        _ => goes_on(done, next),
                    },
                    (Action::DecryptFile(_), Reply::Outcome(_)) => goes_on(done, next),
                    (Action::DecryptDirectory(_, _), Reply::Outcome(r)) => match r {
                        Ok(_) => goes_on(done, next),
                        Err(e) => ends_with(next, e),
                    },
                    _ => false,
                }
            }
        }),
{
    if done.len() > 0 {
        let before = done.drop_last();
        assert forall|i: int| 0 <= i < before.len() implies (
        (#[trigger] before[i]).reply matches Reply::Entries(Ok(listing)) ==> listing.entries.len()
            <= usize::MAX) by {
            assert(before[i] == done[i]);
        }
        lemma_course(path, depth, key, before);
        let last = done[done.len() - 1];
        assert(last.reply matches Reply::Entries(Ok(listing)) ==> listing.entries.len()
            <= usize::MAX);
        if before.len() > 0 {
            assert(before.last() == done[done.len() - 2]);
        }
        if done.len() > 2 {
            assert(before[1] == done[1]);
        }
    }
}

/// What is recorded after an exchange is what went wrong in it: every entry that
/// could not be read, a directory that could not be listed, an entry that could not
/// be looked at, a name that could not be opened, a payload that could not be
/// decrypted, and the file that held a name and could not be deleted. Nothing else
/// is recorded.
pub proof fn law_troubles_say_what_failed(s: DecryptDirectoryView, reply: ReplyView, key: Seq<u8>)
    requires
        answers(s.pending(), reply),
    ensures
        ({
            let troubles = s.after(reply, key).troubles;
            match (s.pending(), reply) {
                (Action::ListDirectory(dir), Reply::Entries(Ok(listing))) => {
                    &&& troubles.len() == listing.failed.len()
                    &&& forall|i: int|
                        0 <= i < troubles.len() ==> #[trigger] troubles[i] == TroubleView::Entry(
                            dir,
                            listing.failed[i],
                        )
                },
                (Action::ListDirectory(dir), Reply::Entries(Err(text))) => troubles == seq![
                    TroubleView::Listing(dir, text),
                ],
                (Action::Stat(entry), Reply::Meta(Err(text))) => troubles == seq![
                    TroubleView::Metadata(entry, text),
                ],
                (Action::ReadFile(_), Reply::Bytes(Ok(sealed))) => match simple_opened(
                    sealed,
                    key,
                ) {
                    Err(e) => troubles.len() == 1 && (troubles[0] matches Trouble::DirectoryName(
                        _,
                        error,
                    ) && error == FileErrorView::Crypto(e)),
                    Ok(_) => troubles.len() == 0,
                },
                (Action::DecryptFile(entry), Reply::Outcome(Err(e))) => troubles == seq![
                    TroubleView::File(entry, e),
                ],
                (Action::SecureDelete(marker), Reply::Outcome(Err(e))) => troubles == seq![
                    TroubleView::Marker(marker, e),
                ],
                _ => troubles.len() == 0,
            }
        }),
{
}

/// A directory that lies too deep is not entered, and that is recorded. No other
/// directory is passed over.
pub proof fn law_too_deep_is_recorded(path: Seq<u8>, depth: usize)
    ensures
        depth > 50 ==> directory_decryption(path, depth).troubles == seq![
            TroubleView::TooDeep(path),
        ] && directory_decryption(path, depth).next is Finished,
        depth <= 50 ==> directory_decryption(path, depth).troubles.len() == 0
            && directory_decryption(path, depth).next is Running,
{
}

impl DecryptDirectory<Vec<u8>, Vec<Vec<u8>>> {
    /// The action that the decryption waits for.
    pub fn action(&self) -> (act: Action<Vec<u8>, String>)
        requires
            self@.wf(),
        ensures
            act@ == self@.pending(),
    {
        match self {
            DecryptDirectory::FindMarker { path, .. } => {
                Action::CheckExists(marker_path(path.as_slice()))
            },
            DecryptDirectory::ReadMarker { path, .. } => {
                Action::ReadFile(marker_path(path.as_slice()))
            },
            DecryptDirectory::Choose { variant, .. } => {
                Action::CheckTaken(copied(variant.as_slice()))
            },
            DecryptDirectory::Rename { path, target, .. } => {
                Action::Rename(copied(path.as_slice()), copied(target.as_slice()))
            },
            DecryptDirectory::FindMoved { target, .. } => {
                Action::CheckExists(marker_path(target.as_slice()))
            },
            DecryptDirectory::DeleteMarker { target, .. } => {
                Action::SecureDelete(marker_path(target.as_slice()))
            },
            DecryptDirectory::List { current, .. } => {
                Action::ListDirectory(copied(current.as_slice()))
            },
            DecryptDirectory::Look { entries, at, .. } => {
                Action::Stat(copied(entries[*at].as_slice()))
            },
            DecryptDirectory::Descend { depth, entries, at } => {
                Action::DecryptDirectory(copied(entries[*at].as_slice()), *depth + 1)
            },
            DecryptDirectory::DecryptEntry { entries, at, .. } => {
                Action::DecryptFile(copied(entries[*at].as_slice()))
            },
        }
    }
}

/// The file that holds the name of the directory at `path`.
fn marker_path(path: &[u8]) -> (marker: Vec<u8>)
    ensures
        marker@ == marker_of(path@),
{
    join(path, DIR_MARKER.as_bytes())
}

/// The decryption goes on with `s`, and nothing else happens.
fn proceeding(s: DecryptDirectory<Vec<u8>, Vec<Vec<u8>>>) -> (turn: DecryptDirectoryTurn)
    ensures
        turn@ == proceed(s@),
        turn.next == Progress::<_, Vec<u8>, String>::Running(s),
{
    let turn = DirectoryTurn {
        next: Progress::Running(s),
        say: None,
        troubles: Vec::new(),
        restored: false,
    };
    assert(turn@.troubles =~= Seq::empty());
    turn
}

/// The decryption ends with `r`, and nothing else happens.
fn stopping(r: Result<(), FsError<Vec<u8>, String>>) -> (turn: DecryptDirectoryTurn)
    ensures
        turn@ == stop(outcome_view(r)),
        turn.next is Finished,
{
    let turn = DirectoryTurn {
        next: Progress::Finished(r),
        say: None,
        troubles: Vec::new(),
        restored: false,
    };
    assert(turn@.troubles =~= Seq::empty());
    turn
}

/// `turn`, in which this went wrong.
fn troubled(turn: DecryptDirectoryTurn, trouble: Trouble<Vec<u8>, String>) -> (r:
    DecryptDirectoryTurn)
    ensures
        r@ == (DirectoryTurnView { troubles: seq![trouble@], ..turn@ }),
        r.next == turn.next,
{
    let mut troubles: Vec<Trouble<Vec<u8>, String>> = Vec::new();
    troubles.push(trouble);
    assert(troubles_view(troubles) =~= seq![trouble@]);
    DirectoryTurn { next: turn.next, say: turn.say, troubles, restored: turn.restored }
}

/// The entries of the directory at `path` that could not be read.
fn unread_entries(path: &[u8], failed: Vec<String>) -> (troubles: Vec<Trouble<Vec<u8>, String>>)
    ensures
        troubles_view(troubles) == unread(path@, texts_view(failed)),
{
    let ghost all = texts_view(failed);
    let mut troubles: Vec<Trouble<Vec<u8>, String>> = Vec::new();
    let mut i: usize = 0;
    while i < failed.len()
        invariant
            i <= failed@.len(),
            all == texts_view(failed),
            troubles@.len() == i,
            forall|j: int| 0 <= j < i ==> (#[trigger] troubles@[j])@ == TroubleView::Entry(
                path@,
                all[j],
            ),
        decreases failed@.len() - i,
    {
        troubles.push(Trouble::Entry(copied(path), failed[i].clone()));
        i = i + 1;
    }
    assert(troubles_view(troubles) =~= unread(path@, all));
    troubles
}

/// Turns to the entry with index `at`.
fn visit(depth: usize, entries: Vec<Vec<u8>>, at: usize) -> (turn: DecryptDirectoryTurn)
    requires
        depth <= MAX_DEPTH,
    ensures
        turn@ == visiting(depth, list_view(entries), at as int),
        turn.next matches Progress::Running(next) ==> next@.wf(),
{
    if at < entries.len() {
        return proceeding(DecryptDirectory::Look { depth, entries, at });
    }
    stopping(Ok(()))
}

/// Tries the next variant of `wanted`, after `taken` variants that were taken.
fn choose_directory(path: Vec<u8>, depth: usize, wanted: Vec<u8>, taken: u64) -> (turn:
    DecryptDirectoryTurn)
    requires
        depth <= MAX_DEPTH,
    ensures
        turn@ == choosing_directory(path@, depth, wanted@, taken),
        turn.next matches Progress::Running(next) ==> next@.wf(),
{
    match get_unique_path(wanted.as_slice(), taken) {
        Ok(variant) => proceeding(
            DecryptDirectory::Choose { path, depth, wanted, variant, taken },
        ),
        Err(e) => stopping(Err(e)),
    }
}

/// Gives a directory the name in its opened marker.
pub fn name_directory(path: Vec<u8>, depth: usize, opened: Result<Vec<u8>, CryptoError>) -> (turn:
    DecryptDirectoryTurn)
    requires
        depth <= MAX_DEPTH,
    ensures
        turn@ == naming(path@, depth, bytes_view(opened)),
        turn.next matches Progress::Running(next) ==> next@.wf(),
{
    match opened {
        Err(e) => {
            let shown = copied(path.as_slice());
            troubled(
                proceeding(DecryptDirectory::List { current: path, depth }),
                Trouble::DirectoryName(shown, FsError::Crypto(e)),
            )
        },
        Ok(stored) => {
            if str_from_utf8(stored.as_slice()).is_err() {
                return stopping(Err(FsError::DirectoryNameNotUtf8));
            }
            match file_name(stored.as_slice()) {
                None => stopping(Err(FsError::InvalidDirectoryNameInMetadata)),
                Some(base) => {
                    let dir = parent_directory(path.as_slice());
                    let wanted = join(dir.as_slice(), base);
                    choose_directory(path, depth, wanted, 0)
                },
            }
        },
    }
}

/// Decides on the entry with index `at`, of this kind.
fn decide(depth: usize, entries: Vec<Vec<u8>>, at: usize, kind: FileKind) -> (turn:
    DecryptDirectoryTurn)
    requires
        depth <= MAX_DEPTH,
        at < entries@.len() <= usize::MAX,
    ensures
        turn@ == deciding(depth, list_view(entries), at, kind),
        turn.next matches Progress::Running(next) ==> next@.wf(),
{
    match kind {
        FileKind::Symlink => {
            let shown = copied(entries[at].as_slice());
            let turn = visit(depth, entries, at + 1);
            DirectoryTurn {
                next: turn.next,
                say: Some(Notice::SkippingSymlink(shown)),
                troubles: turn.troubles,
                restored: turn.restored,
            }
        },
        FileKind::Directory => proceeding(DecryptDirectory::Descend { depth, entries, at }),
        FileKind::File => {
            let marker = match file_name(entries[at].as_slice()) {
                Some(name) => same_bytes(name, DIR_MARKER.as_bytes()),
                None => false,
            };
            if !marker && has_ciphertext_name(entries[at].as_slice()) {
                proceeding(DecryptDirectory::DecryptEntry { depth, entries, at })
            } else {
                visit(depth, entries, at + 1)
            }
        },
        FileKind::Other => visit(depth, entries, at + 1),
    }
}

/// Turns to what is in the directory, which has its name back.
fn restored_directory(
    target: Vec<u8>,
    depth: usize,
    kept: bool,
) -> (turn: DecryptDirectoryTurn)
    ensures
        turn@ == (DirectoryTurnView {
            say: Some(Notice::DirectoryRestored(target@, kept)),
            ..proceed(DecryptDirectory::List { current: target@, depth })
        }),
        turn.next matches Progress::Running(next) && next@ == (DecryptDirectoryView::List {
            current: target@,
            depth,
        }),
{
    let shown = copied(target.as_slice());
    let turn = proceeding(DecryptDirectory::List { current: target, depth });
    DirectoryTurn {
        next: turn.next,
        say: Some(Notice::DirectoryRestored(shown, kept)),
        troubles: turn.troubles,
        restored: turn.restored,
    }
}

/// Goes on with the decryption of a directory after a reply, without recording
/// anything.
pub fn decrypt_directory_turn(
    op: DecryptDirectory<Vec<u8>, Vec<Vec<u8>>>,
    reply: FileReply,
    key: &SecureKey,
) -> (turn: DecryptDirectoryTurn)
    requires
        op@.wf(),
        answers(op@.pending(), reply@),
        can_be_opened(reply@),
    ensures
        turn@ == op@.after(reply@, key@),
        turn.next matches Progress::Running(next) ==> next@.wf(),
{
    match (op, reply) {
        (DecryptDirectory::FindMarker { path, depth }, Reply::Answer(found)) => {
            if found {
                proceeding(DecryptDirectory::ReadMarker { path, depth })
            } else {
                proceeding(DecryptDirectory::List { current: path, depth })
            }
        },
        (DecryptDirectory::ReadMarker { path, depth }, Reply::Bytes(Ok(sealed))) => {
            name_directory(path, depth, simple_decrypt_data(sealed.as_slice(), key))
        },
        (
            DecryptDirectory::Choose { path, depth, wanted, variant, taken },
            Reply::Answer(is_taken),
        ) => {
            if is_taken {
                choose_directory(path, depth, wanted, taken + 1)
            } else {
                proceeding(DecryptDirectory::Rename { path, depth, target: variant })
            }
        },
        (DecryptDirectory::Rename { path: _, depth, target }, Reply::Done(Ok(_))) => {
            proceeding(DecryptDirectory::FindMoved { depth, target })
        },
        (DecryptDirectory::FindMoved { depth, target }, Reply::Answer(found)) => {
            if found {
                return proceeding(DecryptDirectory::DeleteMarker { depth, target });
            }
            restored_directory(target, depth, false)
        },
        (DecryptDirectory::DeleteMarker { depth, target }, Reply::Outcome(outcome)) => {
            match outcome {
                Ok(_) => restored_directory(target, depth, false),
                Err(e) => {
                    let marker = marker_path(target.as_slice());
                    troubled(
                        restored_directory(target, depth, true),
                        Trouble::Marker(marker, e),
                    )
                },
            }
        },
        (DecryptDirectory::List { current, depth }, Reply::Entries(listed)) => {
            match listed {
                Ok(listing) => {
                    let troubles = unread_entries(current.as_slice(), listing.failed);
                    let turn = visit(depth, listing.entries, 0);
                    DirectoryTurn {
                        next: turn.next,
                        say: turn.say,
                        troubles,
                        restored: turn.restored,
                    }
                },
                Err(text) => troubled(stopping(Ok(())), Trouble::Listing(current, text)),
            }
        },
        (DecryptDirectory::Look { depth, entries, at }, Reply::Meta(Err(text))) => {
            let shown = copied(entries[at].as_slice());
            troubled(visit(depth, entries, at + 1), Trouble::Metadata(shown, text))
        },
        (DecryptDirectory::Look { depth, entries, at }, Reply::Meta(Ok((kind, _)))) => {
            decide(depth, entries, at, kind)
        },
        (DecryptDirectory::Descend { depth, entries, at }, Reply::Outcome(Ok(_))) => {
            visit(depth, entries, at + 1)
        },
        (DecryptDirectory::DecryptEntry { depth, entries, at }, Reply::Outcome(outcome)) => {
            let shown = copied(entries[at].as_slice());
            let turn = visit(depth, entries, at + 1);
            match outcome {
                Ok(_) => DirectoryTurn {
                    next: turn.next,
                    say: turn.say,
                    troubles: turn.troubles,
                    restored: true,
                },
                Err(e) => troubled(turn, Trouble::File(shown, e)),
            }
        },
        (_, Reply::Outcome(Err(e))) => stopping(Err(e)),
        (_, Reply::Bytes(Err(text))) => stopping(Err(FsError::Io(text))),
        (_, Reply::Done(Err(text))) => stopping(Err(FsError::Io(text))),
        (_, _) => stopping(Ok(())),
    }
}

/// Whether `after` is `before` with a text for each of `troubles` behind it.
pub open spec fn reports(
    before: Seq<String>,
    after: Seq<String>,
    troubles: Seq<TroubleView>,
) -> bool {
    &&& after.len() == before.len() + troubles.len()
    &&& after.subrange(0, before.len() as int) == before
    &&& forall|i: int|
        0 <= i < troubles.len() ==> trouble_says(
            #[trigger] troubles[i],
            after[before.len() + i]@,
        )
}

proof fn lemma_reports_push(
    before: Seq<String>,
    after: Seq<String>,
    troubles: Seq<TroubleView>,
    trouble: TroubleView,
    text: String,
)
    requires
        reports(before, after, troubles),
        trouble_says(trouble, text@),
    ensures
        reports(before, after.push(text), troubles.push(trouble)),
{
    let with = after.push(text);
    let all = troubles.push(trouble);
    assert(with.subrange(0, before.len() as int) =~= after.subrange(0, before.len() as int));
    assert forall|i: int| 0 <= i < all.len() implies trouble_says(
        #[trigger] all[i],
        with[before.len() + i]@,
    ) by {
        if i < troubles.len() {
            assert(all[i] == troubles[i]);
        }
    }
}

/// Whether `after` is `before` with what `turn` says recorded.
pub open spec fn records(
    before: EncryptionStats,
    after: EncryptionStats,
    turn: DirectoryTurnView,
) -> bool {
    &&& after.total == before.total
    &&& after.success == before.success + if turn.restored {
        1int
    } else {
        0
    }
    &&& reports(before.errors@, after.errors@, turn.troubles)
}

/// Records what a turn says.
fn record(
    stats: &mut EncryptionStats,
    turn: DecryptDirectoryTurn,
) -> (r: (
    Progress<DecryptDirectory<Vec<u8>, Vec<Vec<u8>>>, Vec<u8>, String>,
    Option<Notice<Vec<u8>, String>>,
))
    requires
        old(stats).success < usize::MAX,
    ensures
        records(*old(stats), *final(stats), turn@),
        r.0 == turn.next,
        r.1 == turn.say,
{
    if turn.restored {
        stats.success = stats.success + 1;
    }
    let mut i: usize = 0;
    assert(turn@.troubles.subrange(0, 0) =~= Seq::empty());
    assert(stats.errors@.subrange(0, stats.errors@.len() as int) =~= stats.errors@);
    while i < turn.troubles.len()
        invariant
            i <= turn.troubles@.len(),
            stats.total == old(stats).total,
            stats.success == old(stats).success + if turn.restored {
                1int
            } else {
                0
            },
            reports(old(stats).errors@, stats.errors@, turn@.troubles.subrange(0, i as int)),
        decreases turn.troubles@.len() - i,
    {
        let ghost said = turn@.troubles.subrange(0, i as int);
        let ghost shown = stats.errors@;
        let text = trouble_text(&turn.troubles[i]);
        stats.errors.push(text);
        proof {
            assert(turn@.troubles.subrange(0, i + 1) =~= said.push(turn.troubles@[i as int]@));
            lemma_reports_push(old(stats).errors@, shown, said, turn.troubles@[i as int]@, text);
        }
        i = i + 1;
    }
    assert(turn@.troubles.subrange(0, i as int) =~= turn@.troubles);
    (turn.next, turn.say)
}

/// Begins to decrypt the directory at `path`, this deep.
pub fn begin_directory_decryption(path: &[u8], depth: usize, stats: &mut EncryptionStats) -> (r:
    Progress<DecryptDirectory<Vec<u8>, Vec<Vec<u8>>>, Vec<u8>, String>)
    requires
        old(stats).success < usize::MAX,
    ensures
        ({
            let turn = directory_decryption(path@, depth);
            progress_view(r) == turn.next && records(*old(stats), *final(stats), turn)
        }),
        r matches Progress::Running(op) ==> op@.wf(),
{
    let turn = if depth > MAX_DEPTH {
        troubled(stopping(Ok(())), Trouble::TooDeep(copied(path)))
    } else {
        proceeding(DecryptDirectory::FindMarker { path: copied(path), depth })
    };
    let (next, _) = record(stats, turn);
    next
}

/// Goes on with the decryption of a directory after a reply, and records what
/// went wrong and what was restored.
pub fn decrypt_directory_recursive(
    op: DecryptDirectory<Vec<u8>, Vec<Vec<u8>>>,
    reply: FileReply,
    key: &SecureKey,
    stats: &mut EncryptionStats,
) -> (r: (
    Progress<DecryptDirectory<Vec<u8>, Vec<Vec<u8>>>, Vec<u8>, String>,
    Option<Notice<Vec<u8>, String>>,
))
    requires
        op@.wf(),
        answers(op@.pending(), reply@),
        can_be_opened(reply@),
        old(stats).success < usize::MAX,
    ensures
        ({
            let turn = op@.after(reply@, key@);
            &&& progress_view(r.0) == turn.next
            &&& say_view(r.1) == turn.say
            &&& records(*old(stats), *final(stats), turn)
        }),
        r.0 matches Progress::Running(next) ==> next@.wf(),
{
    let turn = decrypt_directory_turn(op, reply, key);
    record(stats, turn)
}

/// A link is said to be skipped, and a directory to be restored once it has its old
/// name, with a warning where the file that held the name could not be deleted.
/// Nothing else is said.
pub proof fn law_directory_decryption_says_what_happens(
    s: DecryptDirectoryView,
    reply: ReplyView,
    key: Seq<u8>,
)
    requires
        answers(s.pending(), reply),
    ensures
        ({
            let said = s.after(reply, key).say;
            match (s, reply) {
                (DecryptDirectory::Look { entries, at, .. }, Reply::Meta(Ok((kind, _)))) => said
                    == if kind == FileKind::Symlink {
                    Some(NoticeView::SkippingSymlink(entries[at as int]))
                } else {
                    None
                },
                (DecryptDirectory::FindMoved { target, .. }, Reply::Answer(found)) => said
                    == if found {
                    None
                } else {
                    Some(NoticeView::DirectoryRestored(target, false))
                },
                (DecryptDirectory::DeleteMarker { target, .. }, _) => said == Some(
                    NoticeView::DirectoryRestored(target, !succeeded(reply)),
                ),
                _ => said is None,
            }
        }),
{
}

} // verus!

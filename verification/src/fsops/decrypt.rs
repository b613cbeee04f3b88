//! Decryption of one container in its place.

use vstd::prelude::*;
use vstd::utf8::{decode_utf8_encode_utf8, encode_utf8, encode_utf8_valid_utf8, valid_utf8};
use crate::bytes::copied;
use crate::fsops::action::{
    answers, failed, progress_view, say_view, succeeded, Action, ActionView, Exchange,
    FileReply, Notice, NoticeView, Progress, Reply, ReplyView,
};
use crate::fsops::encrypt::stored_name;
use crate::fsops::error::{FileErrorView, FsError};
use crate::fsops::naming::{
    ciphertext_path_of, get_unique_path, is_random_name, law_random_names_stay,
    law_variants_exist, law_variants_stay, new_name, temporary_path, temporary_path_of,
    unique_path_of, VARIANT_LIMIT,
};
use crate::paths::{
    file_name, file_name_of, join, join_of, law_file_name_is_plain, law_file_name_stays_text,
    law_join_file_name, law_join_parent, parent_directory, parent_of, parent_or_dot,
};

verus! {

/// The state of the decryption of a container.
#[derive(Debug)]
pub enum DecryptFile<P, T> {
    /// The container is opened.
    OpenSource { path: P },
    /// Its beginning is read.
    ReadHeader { path: P },
    /// `variant` of the path `wanted` is looked up, after this many variants
    /// that were taken.
    Choose { path: P, wanted: P, variant: P, taken: u64 },
    /// The temporary file is created.
    CreateOutput { path: P, target: P, temporary: P },
    /// The container is decrypted into the temporary file.
    Decrypt { path: P, target: P, temporary: P },
    /// The temporary file is brought to the disk.
    Sync { path: P, target: P, temporary: P },
    /// The temporary file is put in its place.
    Rename { path: P, target: P, temporary: P },
    /// The temporary file is deleted after this error.
    Discard { temporary: P, error: FsError<P, T> },
    /// The container is deleted.
    Delete { path: P, target: P },
}

/// [`DecryptFile`] as contracts speak of it.
pub type DecryptFileView = DecryptFile<Seq<u8>, Seq<char>>;

impl View for DecryptFile<Vec<u8>, String> {
    type V = DecryptFile<Seq<u8>, Seq<char>>;

    open spec fn view(&self) -> DecryptFile<Seq<u8>, Seq<char>> {
        match *self {
            DecryptFile::OpenSource { path } => DecryptFile::OpenSource { path: path@ },
            DecryptFile::ReadHeader { path } => DecryptFile::ReadHeader { path: path@ },
            DecryptFile::Choose { path, wanted, variant, taken } => DecryptFile::Choose {
                path: path@,
                wanted: wanted@,
                variant: variant@,
                taken,
            },
            DecryptFile::CreateOutput { path, target, temporary } => DecryptFile::CreateOutput {
                path: path@,
                target: target@,
                temporary: temporary@,
            },
            DecryptFile::Decrypt { path, target, temporary } => DecryptFile::Decrypt {
                path: path@,
                target: target@,
                temporary: temporary@,
            },
            DecryptFile::Sync { path, target, temporary } => DecryptFile::Sync {
                path: path@,
                target: target@,
                temporary: temporary@,
            },
            DecryptFile::Rename { path, target, temporary } => DecryptFile::Rename {
                path: path@,
                target: target@,
                temporary: temporary@,
            },
            DecryptFile::Discard { temporary, error } => DecryptFile::Discard {
                temporary: temporary@,
                error: error@,
            },
            DecryptFile::Delete { path, target } => DecryptFile::Delete {
                path: path@,
                target: target@,
            },
        }
    }
}

/// What follows when `taken` variants of `wanted` were taken.
pub open spec fn choosing(path: Seq<u8>, wanted: Seq<u8>, taken: u64) -> Progress<
    DecryptFileView,
    Seq<u8>,
    Seq<char>,
> {
    match unique_path_of(wanted, taken) {
        Ok(variant) => Progress::Running(DecryptFile::Choose { path, wanted, variant, taken }),
        Err(e) => Progress::Finished(Err(e)),
    }
}

/// The bytes, or none.
pub open spec fn or_empty(bytes: Option<Seq<u8>>) -> Seq<u8> {
    match bytes {
        Some(b) => b,
        None => Seq::empty(),
    }
}

impl DecryptFile<Seq<u8>, Seq<char>> {
    /// The action that the decryption waits for.
    pub open spec fn pending(self) -> ActionView {
        match self {
            DecryptFile::OpenSource { path } => Action::OpenSource(path),
            DecryptFile::ReadHeader { .. } => Action::ReadHeader,
            DecryptFile::Choose { variant, .. } => Action::CheckTaken(variant),
            DecryptFile::CreateOutput { temporary, .. } => Action::CreateOutput(temporary),
            DecryptFile::Decrypt { .. } => Action::DecryptInto,
            DecryptFile::Sync { .. } => Action::SyncOutput,
            DecryptFile::Rename { target, temporary, .. } => Action::Rename(temporary, target),
            DecryptFile::Discard { temporary, .. } => Action::SecureDelete(temporary),
            DecryptFile::Delete { path, .. } => Action::SecureDelete(path),
        }
    }

    /// Whether no more variants were tried than are allowed.
    pub open spec fn wf(self) -> bool {
        self matches DecryptFile::Choose { wanted, variant, taken, .. } ==> taken < VARIANT_LIMIT
            && unique_path_of(wanted, taken) == Ok::<Seq<u8>, FileErrorView>(variant)
    }

    /// What follows a reply, and what is shown before. `name` is random.
    ///
    /// Only the last component of the stored name counts: no container decides
    /// in which directory its content is written.
    pub open spec fn after(self, reply: ReplyView, name: Seq<char>) -> (
        Progress<DecryptFileView, Seq<u8>, Seq<char>>,
        Option<NoticeView>,
    ) {
        match (self, reply) {
            (DecryptFile::OpenSource { path }, Reply::Done(Ok(_))) => (
                Progress::Running(DecryptFile::ReadHeader { path }),
                None,
            ),
            (DecryptFile::ReadHeader { path }, Reply::Name(Ok(stored))) => match file_name_of(
                encode_utf8(stored),
            ) {
                Some(base) => (choosing(path, join_of(parent_or_dot(path), base), 0), None),
                None => (Progress::Finished(Err(FsError::InvalidFilenameInMetadata)), None),
            },
            (DecryptFile::Choose { path, wanted, variant, taken }, Reply::Answer(is_taken)) => (
                if is_taken {
                    choosing(path, wanted, (taken + 1) as u64)
                } else {
                    Progress::Running(
                        DecryptFile::CreateOutput {
                            path,
                            target: variant,
                            temporary: temporary_path_of(parent_or_dot(path), name),
                        },
                    )
                },
                None,
            ),
            (DecryptFile::CreateOutput { path, target, temporary }, Reply::Done(Ok(_))) => (
                Progress::Running(DecryptFile::Decrypt { path, target, temporary }),
                None,
            ),
            (DecryptFile::Decrypt { path, target, temporary }, Reply::Outcome(Ok(_))) => (
                Progress::Running(DecryptFile::Sync { path, target, temporary }),
                None,
            ),
            (DecryptFile::Decrypt { temporary, .. }, Reply::Outcome(Err(error))) => (
                Progress::Running(DecryptFile::Discard { temporary, error }),
                None,
            ),
            (DecryptFile::Sync { path, target, temporary }, Reply::Done(Ok(_))) => (
                Progress::Running(DecryptFile::Rename { path, target, temporary }),
                None,
            ),
            (DecryptFile::Rename { path, target, .. }, Reply::Done(Ok(_))) => (
                Progress::Running(DecryptFile::Delete { path, target }),
                None,
            ),
            (DecryptFile::Rename { temporary, .. }, Reply::Done(Err(text))) => (
                Progress::Running(
                    DecryptFile::Discard { temporary, error: FsError::RenameFailed(text) },
                ),
                None,
            ),
            (DecryptFile::Discard { error, .. }, Reply::Outcome(Ok(_))) => (
                Progress::Finished(Err(error)),
                None,
            ),
            (DecryptFile::Delete { target, .. }, Reply::Outcome(Ok(_))) => (
                Progress::Finished(Ok(())),
                Some(Notice::Restored(or_empty(file_name_of(target)))),
            ),
            (_, Reply::Name(Err(e))) => (Progress::Finished(Err(e)), None),
            (_, Reply::Outcome(Err(e))) => (Progress::Finished(Err(e)), None),
            (_, Reply::Done(Err(text))) => (Progress::Finished(Err(FsError::Io(text))), None),
            _ => arbitrary(),
        }
    }
}

/// Where the decryption of `path` stands after the exchanges `done`.
pub open spec fn decryption_at(path: Seq<u8>, done: Seq<Exchange<Seq<char>>>) -> Progress<
    DecryptFileView,
    Seq<u8>,
    Seq<char>,
>
    decreases done.len(),
{
    if done.len() == 0 {
        Progress::Running(DecryptFile::OpenSource { path })
    } else {
        match decryption_at(path, done.drop_last()) {
            Progress::Running(s) => s.after(done.last().reply, done.last().drawn).0,
            Progress::Finished(r) => Progress::Finished(r),
        }
    }
}

/// Whether `done` are exchanges of the decryption of `path`, from its beginning
/// on.
pub open spec fn is_decryption(path: Seq<u8>, done: Seq<Exchange<Seq<char>>>) -> bool
    decreases done.len(),
{
    done.len() > 0 ==> {
        &&& is_decryption(path, done.drop_last())
        &&& decryption_at(path, done.drop_last()) matches Progress::Running(s)
        &&& done.last().asked == s.pending()
        &&& answers(s.pending(), done.last().reply)
        &&& is_random_name(done.last().drawn)
    }
}

/// Whether the last exchanges of `done` were these, `steps` of them: `target`
/// was not found to exist, `temporary` was created, the content was decrypted
/// into it and found to be whole, it was brought to the disk, and it was put in
/// the place of `target`.
#[verifier::opaque]
pub open spec fn verified_into(
    target: Seq<u8>,
    temporary: Seq<u8>,
    done: Seq<Exchange<Seq<char>>>,
    steps: int,
) -> bool {
    let first = done.len() - steps;
    &&& first >= 0
    &&& steps >= 1 ==> done[first].asked == ActionView::CheckTaken(target) && done[first].reply
        == ReplyView::Answer(false)
    &&& steps >= 2 ==> done[first + 1].asked == ActionView::CreateOutput(temporary) && succeeded(
        done[first + 1].reply,
    )
    &&& steps >= 3 ==> done[first + 2].asked == ActionView::DecryptInto && succeeded(
        done[first + 2].reply,
    )
    &&& steps >= 4 ==> done[first + 3].asked == ActionView::SyncOutput && succeeded(
        done[first + 3].reply,
    )
    &&& steps >= 5 ==> done[first + 4].asked == ActionView::Rename(temporary, target)
        && succeeded(done[first + 4].reply)
}

/// Whether the last exchange of `done` failed after `temporary` was created.
pub open spec fn failed_after_creating(temporary: Seq<u8>, done: Seq<Exchange<Seq<char>>>) -> bool {
    let before = done.drop_last();
    &&& done.len() > 0
    &&& !succeeded(done.last().reply)
    &&& {
        ||| exists|target: Seq<u8>| verified_into(target, temporary, before, 2)
        ||| exists|target: Seq<u8>| verified_into(target, temporary, before, 4)
    }
}

/// One more exchange behind those of [`verified_into`].
proof fn lemma_verified_extends(
    target: Seq<u8>,
    temporary: Seq<u8>,
    done: Seq<Exchange<Seq<char>>>,
    steps: int,
)
    requires
        done.len() > 0,
        0 <= steps <= 4,
        verified_into(target, temporary, done.drop_last(), steps),
        steps == 0 ==> done.last().asked == ActionView::CheckTaken(target) && done.last().reply
            == ReplyView::Answer(false),
        steps == 1 ==> done.last().asked == ActionView::CreateOutput(temporary),
        steps == 2 ==> done.last().asked == ActionView::DecryptInto,
        steps == 3 ==> done.last().asked == ActionView::SyncOutput,
        steps == 4 ==> done.last().asked == ActionView::Rename(temporary, target),
        steps >= 1 ==> succeeded(done.last().reply),
    ensures
        verified_into(target, temporary, done, steps + 1),
{
    reveal(verified_into);
}

/// Whether the verified content was put in the place of `target` in the last
/// exchanges of `done`.
pub open spec fn restored_to(target: Seq<u8>, done: Seq<Exchange<Seq<char>>>) -> bool {
    exists|temporary: Seq<u8>| verified_into(target, temporary, done, 5)
}

/// What has happened before the state that the exchanges `done` lead to.
spec fn decryption_holds(path: Seq<u8>, done: Seq<Exchange<Seq<char>>>) -> bool {
    match decryption_at(path, done) {
        Progress::Running(DecryptFile::OpenSource { path: p }) => p == path && done.len() == 0,
        Progress::Running(DecryptFile::ReadHeader { path: p }) => p == path,
        Progress::Running(DecryptFile::Choose { path: p, .. }) => p == path,
        Progress::Running(DecryptFile::CreateOutput { path: p, target, temporary }) => p == path
            && verified_into(target, temporary, done, 1),
        Progress::Running(DecryptFile::Decrypt { path: p, target, temporary }) => p == path
            && verified_into(target, temporary, done, 2),
        Progress::Running(DecryptFile::Sync { path: p, target, temporary }) => p == path
            && verified_into(target, temporary, done, 3),
        Progress::Running(DecryptFile::Rename { path: p, target, temporary }) => p == path
            && verified_into(target, temporary, done, 4),
        Progress::Running(DecryptFile::Discard { temporary, error }) => failed_after_creating(
            temporary,
            done,
        ) && match done.last().reply {
            Reply::Outcome(Err(e)) => error == e,
            Reply::Done(Err(text)) => error == FileErrorView::RenameFailed(text),
            _ => false,
        },
        Progress::Running(DecryptFile::Delete { path: p, target }) => p == path
            && restored_to(target, done),
        Progress::Finished(_) => done.len() > 0,
    }
}

proof fn lemma_decryption(path: Seq<u8>, done: Seq<Exchange<Seq<char>>>)
    requires
        is_decryption(path, done),
    ensures
        decryption_holds(path, done),
    decreases done.len(),
{
    if done.len() > 0 {
        let before = done.drop_last();
        let went_well = succeeded(done.last().reply);
        lemma_decryption(path, before);
        match decryption_at(path, before)->Running_0 {
            DecryptFile::OpenSource { .. } => {
                assert(decryption_holds(path, done));
            },
            DecryptFile::ReadHeader { .. } => {
                assert(decryption_holds(path, done));
            },
            DecryptFile::Choose { variant, .. } => {
                if done.last().reply == ReplyView::Answer(false) {
                    let temporary = temporary_path_of(parent_or_dot(path), done.last().drawn);
                    assert(verified_into(variant, temporary, before, 0)) by {
                        reveal(verified_into);
                    }
                    lemma_verified_extends(variant, temporary, done, 0);
                }
                assert(decryption_holds(path, done));
            },
            DecryptFile::CreateOutput { target, temporary, .. } => {
                if went_well {
                    lemma_verified_extends(target, temporary, done, 1);
                }
                assert(decryption_holds(path, done));
            },
            DecryptFile::Decrypt { target, temporary, .. } => {
                if went_well {
                    lemma_verified_extends(target, temporary, done, 2);
                }
                assert(decryption_holds(path, done));
            },
            DecryptFile::Sync { target, temporary, .. } => {
                if went_well {
                    lemma_verified_extends(target, temporary, done, 3);
                }
                assert(decryption_holds(path, done));
            },
            DecryptFile::Rename { target, temporary, .. } => {
                if went_well {
                    lemma_verified_extends(target, temporary, done, 4);
                    assert(restored_to(target, done));
                }
                assert(decryption_holds(path, done));
            },
            DecryptFile::Discard { .. } => {
                assert(decryption_holds(path, done));
            },
            DecryptFile::Delete { .. } => {
                assert(decryption_holds(path, done));
            },
        }
    }
}

/// Content is put in its place only when it was found to be whole and unchanged
/// and was brought to the disk, and where nothing was found before.
pub proof fn law_placed_only_when_verified(path: Seq<u8>, done: Seq<Exchange<Seq<char>>>)
    requires
        is_decryption(path, done),
        decryption_at(path, done) matches Progress::Running(s) && s.pending() is Rename,
    ensures
        decryption_at(path, done)->Running_0.pending() matches Action::Rename(temporary, target)
            && verified_into(target, temporary, done, 4),
{
    lemma_decryption(path, done);
}

/// A decryption that succeeds has put the verified content in its place before
/// it deleted the container.
pub proof fn law_success_restores(path: Seq<u8>, done: Seq<Exchange<Seq<char>>>)
    requires
        is_decryption(path, done),
        decryption_at(path, done) matches Progress::Finished(Ok(_)),
    ensures
        done.last().asked == ActionView::SecureDelete(path),
        succeeded(done.last().reply),
        exists|target: Seq<u8>| restored_to(target, done.drop_last()),
{
    lemma_decryption(path, done);
    lemma_decryption(path, done.drop_last());
}

/// A decryption that fails deletes nothing but the temporary file that it has
/// created itself.
pub proof fn law_failure_keeps_container(path: Seq<u8>, done: Seq<Exchange<Seq<char>>>, i: int)
    requires
        is_decryption(path, done),
        decryption_at(path, done) matches Progress::Finished(Err(_)),
        0 <= i < done.len(),
        done[i].asked is SecureDelete,
        succeeded(done[i].reply),
    ensures
        i == done.len() - 1,
        exists|temporary: Seq<u8>|
            failed_after_creating(temporary, done.drop_last()) && done[i].asked
                == ActionView::SecureDelete(temporary),
{
    lemma_decryption(path, done.drop_last());
    if i < done.len() - 1 {
        lemma_no_deletion_while_running(path, done.drop_last(), i);
    }
}

proof fn lemma_no_deletion_while_running(path: Seq<u8>, done: Seq<Exchange<Seq<char>>>, i: int)
    requires
        is_decryption(path, done),
        decryption_at(path, done) is Running,
        0 <= i < done.len(),
    ensures
        !(done[i].asked is SecureDelete),
    decreases done.len(),
{
    lemma_decryption(path, done.drop_last());
    if i < done.len() - 1 {
        lemma_no_deletion_while_running(path, done.drop_last(), i);
    }
}

/// When the content is found to be damaged, what was written of it is deleted,
/// and the error is reported.
pub proof fn law_damage_is_discarded(
    path: Seq<u8>,
    done: Seq<Exchange<Seq<char>>>,
    error: FileErrorView,
    last: Exchange<Seq<char>>,
)
    requires
        is_decryption(path, done),
        done.len() > 0,
        done.last().asked == ActionView::DecryptInto,
        done.last().reply == ReplyView::Outcome(Err(error)),
        is_decryption(path, done.push(last)),
    ensures
        exists|temporary: Seq<u8>|
            failed_after_creating(temporary, done) && last.asked == ActionView::SecureDelete(
                temporary,
            ),
        succeeded(last.reply) ==> decryption_at(path, done.push(last)) == Progress::<
            DecryptFileView,
            Seq<u8>,
            Seq<char>,
        >::Finished(Err(error)),
{
    lemma_decryption(path, done);
    lemma_decryption(path, done.drop_last());
    assert(done.push(last).drop_last() =~= done);
}

/// Whatever a container says, its content is written in the directory that the
/// container lies in.
pub proof fn law_content_stays(path: Seq<u8>, done: Seq<Exchange<Seq<char>>>)
    requires
        is_decryption(path, done),
        decryption_at(path, done) is Running,
    ensures
        match decryption_at(path, done)->Running_0.pending() {
            Action::CreateOutput(temporary) => parent_of(temporary) == Some(parent_or_dot(path)),
            Action::Rename(temporary, target) => parent_of(temporary) == Some(parent_or_dot(path))
                && parent_of(target) == Some(parent_or_dot(path)),
            _ => true,
        },
{
    lemma_content_stays(path, done);
}

proof fn lemma_content_stays(path: Seq<u8>, done: Seq<Exchange<Seq<char>>>)
    requires
        is_decryption(path, done),
    ensures
        match decryption_at(path, done) {
            Progress::Running(DecryptFile::Choose { wanted, variant, taken, .. }) => parent_of(
                wanted,
            ) == Some(parent_or_dot(path)) && parent_of(variant) == Some(parent_or_dot(path)) && taken < VARIANT_LIMIT,
            Progress::Running(DecryptFile::CreateOutput { target, temporary, .. }) => parent_of(
                target,
            ) == Some(parent_or_dot(path)) && parent_of(temporary) == Some(parent_or_dot(path)),
            Progress::Running(DecryptFile::Decrypt { target, temporary, .. }) => parent_of(target)
                == Some(parent_or_dot(path)) && parent_of(temporary) == Some(parent_or_dot(path)),
            Progress::Running(DecryptFile::Sync { target, temporary, .. }) => parent_of(target)
                == Some(parent_or_dot(path)) && parent_of(temporary) == Some(parent_or_dot(path)),
            Progress::Running(DecryptFile::Rename { target, temporary, .. }) => parent_of(target)
                == Some(parent_or_dot(path)) && parent_of(temporary) == Some(parent_or_dot(path)),
            _ => true,
        },
    decreases done.len(),
{
    if done.len() > 0 {
        let before = done.drop_last();
        lemma_content_stays(path, before);
        lemma_decryption(path, before);
        law_random_names_stay(path, done.last().drawn);
        match decryption_at(path, before)->Running_0 {
            DecryptFile::ReadHeader { .. } => {
                if let Reply::Name(Ok(stored)) = done.last().reply {
                    law_file_name_is_plain(encode_utf8(stored));
                    if let Some(base) = file_name_of(encode_utf8(stored)) {
                        law_join_parent(path, base);
                    }
                }
            },
            DecryptFile::Choose { wanted, taken, .. } => {
                let next = (taken + 1) as u64;
                if unique_path_of(wanted, next) is Ok {
                    law_variants_stay(wanted, next);
                }
            },
            _ => {},
        }
    }
}

/// The file name that was found in the container by the exchanges `done`.
pub open spec fn found_name(done: Seq<Exchange<Seq<char>>>) -> Seq<char> {
    done[1].reply->Name_0->Ok_0
}

/// Where the content of the container at `path` goes, if nothing stands there:
/// next to the container, under the last component of the file name `stored`.
pub open spec fn place_of(path: Seq<u8>, stored: Seq<char>) -> Seq<u8> {
    join_of(parent_or_dot(path), file_name_of(encode_utf8(stored))->Some_0)
}

/// Whether, in the exchanges `done`, the file name was found in the container,
/// and then the first `taken` variants of its place were found to be taken.
pub open spec fn variants_taken(
    path: Seq<u8>,
    taken: u64,
    done: Seq<Exchange<Seq<char>>>,
) -> bool {
    let place = place_of(path, found_name(done));
    &&& done.len() >= 2 + taken
    &&& done[1].asked == ActionView::ReadHeader
    &&& done[1].reply matches Reply::Name(Ok(_))
    &&& file_name_of(encode_utf8(found_name(done))) is Some
    &&& forall|k: int|
        0 <= k < taken ==> (#[trigger] done[2 + k]).reply == ReplyView::Answer(true)
            && (unique_path_of(place, k as u64) matches Ok(variant) && done[2 + k].asked
            == ActionView::CheckTaken(variant))
}

/// Whether `target` is the first variant of the container's place that was not
/// found to be taken, behind `taken` that were.
pub open spec fn is_first_free(
    path: Seq<u8>,
    target: Seq<u8>,
    taken: u64,
    done: Seq<Exchange<Seq<char>>>,
) -> bool {
    &&& variants_taken(path, taken, done)
    &&& done.len() > 2 + taken
    &&& done[2 + taken].asked == ActionView::CheckTaken(target)
    &&& done[2 + taken].reply == ReplyView::Answer(false)
    &&& unique_path_of(place_of(path, found_name(done)), taken) == Ok::<Seq<u8>, FileErrorView>(
        target,
    )
}

/// Which variants were tried before the state that the exchanges `done` lead to.
spec fn choice_holds(path: Seq<u8>, done: Seq<Exchange<Seq<char>>>) -> bool {
    let n = done.len() as int;
    match decryption_at(path, done) {
        Progress::Running(DecryptFile::OpenSource { .. }) => n == 0,
        Progress::Running(DecryptFile::ReadHeader { path: p }) => p == path && n == 1,
        Progress::Running(DecryptFile::Choose { path: p, wanted, variant, taken }) => {
            &&& p == path
            &&& taken < VARIANT_LIMIT
            &&& n == 2 + taken
            &&& variants_taken(path, taken, done)
            &&& wanted == place_of(path, found_name(done))
            &&& unique_path_of(wanted, taken) == Ok::<Seq<u8>, FileErrorView>(variant)
        },
        Progress::Running(DecryptFile::CreateOutput { target, .. }) => 3 <= n < 3 + VARIANT_LIMIT
            && is_first_free(path, target, (n - 3) as u64, done),
        Progress::Running(DecryptFile::Decrypt { target, .. }) => 4 <= n < 4 + VARIANT_LIMIT
            && is_first_free(path, target, (n - 4) as u64, done),
        Progress::Running(DecryptFile::Sync { target, .. }) => 5 <= n < 5 + VARIANT_LIMIT
            && is_first_free(path, target, (n - 5) as u64, done),
        Progress::Running(DecryptFile::Rename { target, .. }) => 6 <= n < 6 + VARIANT_LIMIT
            && is_first_free(path, target, (n - 6) as u64, done),
        Progress::Running(DecryptFile::Delete { target, .. }) => 7 <= n < 7 + VARIANT_LIMIT
            && is_first_free(path, target, (n - 7) as u64, done),
        _ => true,
    }
}

/// One more exchange behind those of [`variants_taken`].
proof fn lemma_variants_extend(path: Seq<u8>, taken: u64, done: Seq<Exchange<Seq<char>>>)
    requires
        done.len() > 0,
        variants_taken(path, taken, done.drop_last()),
    ensures
        variants_taken(path, taken, done),
        found_name(done) == found_name(done.drop_last()),
{
    let before = done.drop_last();
    assert forall|k: int| 0 <= k < taken implies #[trigger] done[2 + k] == before[2 + k] by {}
}

proof fn lemma_choice(path: Seq<u8>, done: Seq<Exchange<Seq<char>>>)
    requires
        is_decryption(path, done),
    ensures
        choice_holds(path, done),
    decreases done.len(),
{
    if done.len() > 0 {
        let before = done.drop_last();
        let n = before.len() as int;
        lemma_choice(path, before);
        match decryption_at(path, before)->Running_0 {
            DecryptFile::ReadHeader { .. } => {
                assert(choice_holds(path, done));
            },
            DecryptFile::Choose { wanted, variant, taken, .. } => {
                lemma_variants_extend(path, taken, done);
                if done.last().reply == ReplyView::Answer(true) {
                    assert(variants_taken(path, (taken + 1) as u64, done));
                }
                assert(choice_holds(path, done));
            },
            DecryptFile::CreateOutput { .. } => {
                lemma_variants_extend(path, (n - 3) as u64, done);
                assert(choice_holds(path, done));
            },
            DecryptFile::Decrypt { .. } => {
                lemma_variants_extend(path, (n - 4) as u64, done);
                assert(choice_holds(path, done));
            },
            DecryptFile::Sync { .. } => {
                lemma_variants_extend(path, (n - 5) as u64, done);
                assert(choice_holds(path, done));
            },
            DecryptFile::Rename { .. } => {
                lemma_variants_extend(path, (n - 6) as u64, done);
                assert(choice_holds(path, done));
            },
            _ => {},
        }
    }
}

/// A decryption that succeeds has put the content under the name that it found
/// in the container, or under the first variant of it that was free.
pub proof fn law_restored_under_its_name(path: Seq<u8>, done: Seq<Exchange<Seq<char>>>)
    requires
        is_decryption(path, done),
        decryption_at(path, done) matches Progress::Finished(Ok(_)),
    ensures
        exists|target: Seq<u8>, taken: u64|
            restored_to(target, done.drop_last()) && #[trigger] is_first_free(
                path,
                target,
                taken,
                done,
            ),
{
    let before = done.drop_last();
    lemma_decryption(path, done);
    lemma_decryption(path, before);
    lemma_choice(path, before);
    let target = decryption_at(path, before)->Running_0->Delete_target;
    let taken = (before.len() - 7) as u64;
    lemma_variants_extend(path, taken, done);
    assert(is_first_free(path, target, taken, done));
}

/// Where anything fails, the decryption is about to end with an error.
proof fn lemma_failure_shows(path: Seq<u8>, done: Seq<Exchange<Seq<char>>>, i: int)
    requires
        is_decryption(path, done),
        0 <= i < done.len(),
        failed(done[i].reply),
    ensures
        (decryption_at(path, done) matches Progress::Finished(Err(_))) || (decryption_at(
            path,
            done,
        ) matches Progress::Running(DecryptFile::Discard { .. })),
    decreases done.len(),
{
    if i < done.len() - 1 {
        lemma_failure_shows(path, done.drop_last(), i);
    }
}

/// A decryption that succeeds was answered well in everything that it asked for.
pub proof fn law_success_had_no_failure(path: Seq<u8>, done: Seq<Exchange<Seq<char>>>, i: int)
    requires
        is_decryption(path, done),
        decryption_at(path, done) matches Progress::Finished(Ok(_)),
        0 <= i < done.len(),
    ensures
        !failed(done[i].reply),
{
    if failed(done[i].reply) {
        lemma_failure_shows(path, done, i);
    }
}

/// Whether, in the exchanges `done` of a decryption, all variants of the path of
/// what it restores were found to be taken.
pub open spec fn all_variants_taken<R>(done: Seq<Exchange<R>>) -> bool {
    &&& done.len() >= 2 + VARIANT_LIMIT
    &&& forall|i: int|
        2 <= i < 2 + VARIANT_LIMIT ==> (#[trigger] done[i]).reply == ReplyView::Answer(true)
}

/// Whether nothing failed in the exchanges `done`, the file name in the container
/// names something, and not all variants of that are taken.
pub open spec fn goes_well(done: Seq<Exchange<Seq<char>>>) -> bool {
    &&& forall|i: int| 0 <= i < done.len() ==> !failed((#[trigger] done[i]).reply)
    &&& done.len() > 1 ==> file_name_of(encode_utf8(found_name(done))) is Some
    &&& !all_variants_taken(done)
}

/// The place of a content has as many variants as are tried.
proof fn lemma_place_has_variants(path: Seq<u8>, stored: Seq<char>, taken: u64)
    requires
        file_name_of(encode_utf8(stored)) is Some,
        taken < VARIANT_LIMIT,
    ensures
        unique_path_of(place_of(path, stored), taken) is Ok,
{
    let name = encode_utf8(stored);
    encode_utf8_valid_utf8(stored);
    law_file_name_stays_text(name);
    law_file_name_is_plain(name);
    law_join_file_name(parent_or_dot(path), file_name_of(name)->Some_0);
    law_variants_exist(place_of(path, stored), taken);
}

proof fn lemma_goes_well(path: Seq<u8>, done: Seq<Exchange<Seq<char>>>)
    requires
        is_decryption(path, done),
        goes_well(done),
    ensures
        match decryption_at(path, done) {
            Progress::Running(s) => !(s is Discard),
            Progress::Finished(r) => r is Ok,
        },
    decreases done.len(),
{
    if done.len() > 0 {
        let before = done.drop_last();
        assert forall|i: int| 0 <= i < before.len() implies !failed(
            (#[trigger] before[i]).reply,
        ) by {
            assert(before[i] == done[i]);
        }
        if all_variants_taken(before) {
            assert forall|i: int| 2 <= i < 2 + VARIANT_LIMIT implies (#[trigger] done[i]).reply
                == ReplyView::Answer(true) by {
                assert(before[i] == done[i]);
            }
        }
        lemma_goes_well(path, before);
        lemma_choice(path, before);
        assert(!failed(done[done.len() - 1].reply));
        if let DecryptFile::Choose { taken, .. } = decryption_at(path, before)->Running_0 {
            if done.last().reply == ReplyView::Answer(true) {
                if taken + 1 < VARIANT_LIMIT {
                    lemma_place_has_variants(path, found_name(before), (taken + 1) as u64);
                } else {
                    assert forall|i: int| 2 <= i < 2 + VARIANT_LIMIT implies (
                    #[trigger] done[i]).reply == ReplyView::Answer(true) by {
                        if i < 2 + taken {
                            assert(before[2 + (i - 2)] == done[i]);
                        }
                    }
                }
            }
        }
    }
}

/// A decryption in which nothing fails, of a container whose file name names
/// something, succeeds, unless all variants of that are taken.
pub proof fn law_faithful_decryption_succeeds(path: Seq<u8>, done: Seq<Exchange<Seq<char>>>)
    requires
        is_decryption(path, done),
        decryption_at(path, done) is Finished,
        goes_well(done),
    ensures
        decryption_at(path, done) matches Progress::Finished(Ok(_)),
{
    lemma_goes_well(path, done);
}

/// A file comes back: when its container is decrypted and nothing stands in its
/// place, the content gets the name of the file, in the directory of the file.
pub proof fn law_file_comes_back(path: Seq<u8>, name: Seq<char>, done: Seq<Exchange<Seq<char>>>)
    requires
        file_name_of(path) matches Some(base) && valid_utf8(base),
        is_random_name(name),
        is_decryption(ciphertext_path_of(parent_or_dot(path), name), done),
        decryption_at(ciphertext_path_of(parent_or_dot(path), name), done) matches Progress::Finished(
            Ok(_),
        ),
        found_name(done) == stored_name(path),
        done[2].reply == ReplyView::Answer(false),
    ensures
        exists|target: Seq<u8>| #[trigger]
            restored_to(target, done.drop_last()) && file_name_of(target) == file_name_of(path)
                && parent_of(target) == parent_of(path),
{
    let container = ciphertext_path_of(parent_or_dot(path), name);
    let base = file_name_of(path)->Some_0;
    law_restored_under_its_name(container, done);
    let (target, taken) = choose|target: Seq<u8>, taken: u64|
        restored_to(target, done.drop_last()) && #[trigger] is_first_free(
            container,
            target,
            taken,
            done,
        );
    if taken > 0 {
        assert(done[2int + 0].reply == ReplyView::Answer(true));
    }
    law_file_name_is_plain(path);
    law_random_names_stay(path, name);
    decode_utf8_encode_utf8(base);
    assert(encode_utf8(stored_name(path)) == base);
    law_join_file_name(Seq::empty(), base);
    assert(join_of(Seq::empty(), base) =~= base);
    law_join_parent(path, base);
    law_join_file_name(parent_or_dot(path), base);
}

/// Whether the decryption asks for `action` next.
pub open spec fn asks(
    next: Progress<DecryptFileView, Seq<u8>, Seq<char>>,
    action: ActionView,
) -> bool {
    next matches Progress::Running(s) && s.pending() == action
}

/// Whether the decryption ends with `error`.
pub open spec fn ends_with(
    next: Progress<DecryptFileView, Seq<u8>, Seq<char>>,
    error: FileErrorView,
) -> bool {
    next matches Progress::Finished(r) && r == Err::<(), FileErrorView>(error)
}

/// Where a decryption stands, by what it was answered last.
proof fn lemma_course(path: Seq<u8>, done: Seq<Exchange<Seq<char>>>)
    requires
        is_decryption(path, done),
    ensures
        match decryption_at(path, done) {
            Progress::Running(DecryptFile::OpenSource { path: p }) => p == path && done.len() == 0,
            Progress::Running(DecryptFile::ReadHeader { path: p }) => p == path && done.len() == 1,
            Progress::Running(DecryptFile::Choose { path: p, wanted, variant, taken }) => {
                &&& p == path
                &&& done.len() == 2 + taken
                &&& taken < 10000
                &&& wanted == join_of(
                    parent_or_dot(path),
                    file_name_of(encode_utf8(found_name(done)))->Some_0,
                )
            },
            Progress::Running(DecryptFile::CreateOutput { path: p, target, temporary }) => {
                &&& p == path
                &&& done.len() >= 3
                &&& done.last().asked == ActionView::CheckTaken(target)
                &&& temporary == join_of(
                    parent_or_dot(path),
                    encode_utf8("."@) + encode_utf8(done.last().drawn) + encode_utf8(".tmp"@),
                )
            },
            Progress::Running(DecryptFile::Decrypt { path: p, target, temporary }) => {
                &&& p == path
                &&& done.len() >= 4
                &&& done.last().asked == ActionView::CreateOutput(temporary)
                &&& done[done.len() - 2].asked == ActionView::CheckTaken(target)
            },
            Progress::Running(DecryptFile::Sync { path: p, target, temporary }) => {
                &&& p == path
                &&& done.len() >= 5
                &&& done[done.len() - 2].asked == ActionView::CreateOutput(temporary)
                &&& done[done.len() - 3].asked == ActionView::CheckTaken(target)
            },
            Progress::Running(DecryptFile::Rename { path: p, target, temporary }) => {
                &&& p == path
                &&& done.len() >= 6
                &&& done[done.len() - 3].asked == ActionView::CreateOutput(temporary)
                &&& done[done.len() - 4].asked == ActionView::CheckTaken(target)
            },
            Progress::Running(DecryptFile::Discard { temporary, error }) => match done.last().asked {
                Action::DecryptInto => {
                    &&& done.len() >= 5
                    &&& done[done.len() - 2].asked == ActionView::CreateOutput(temporary)
                    &&& done.last().reply == ReplyView::Outcome(Err(error))
                },
                Action::Rename(from, _) => {
                    &&& done.len() >= 7
                    &&& from == temporary
                    &&& done.last().reply matches Reply::Done(Err(text))
                    &&& error == FileErrorView::RenameFailed(text)
                },
                _ => false,
            },
            Progress::Running(DecryptFile::Delete { path: p, .. }) => p == path,
            Progress::Finished(_) => true,
        },
    decreases done.len(),
{
    if done.len() > 0 {
        let before = done.drop_last();
        lemma_course(path, before);
        if done.len() > 2 {
            assert(before[1] == done[1]);
        }
    }
}

/// What a decryption asks for follows from the answers to what it has asked for
/// before: it opens the container, reads the file name in it, tries the place of
/// that name and its variants until one is free, decrypts into a temporary file,
/// brings that to the disk, puts it in its place, and deletes the container. What
/// cannot be decrypted whole, or not be put in its place, is deleted, and the
/// container stays.
pub proof fn law_decryption_follows_its_course(path: Seq<u8>, done: Seq<Exchange<Seq<char>>>)
    requires
        is_decryption(path, done),
    ensures
        ({
            let next = decryption_at(path, done);
            let n = done.len();
            if n == 0 {
                asks(next, Action::OpenSource(path))
            } else {
                let last = done.last();
                let dir = parent_or_dot(path);
                match (last.asked, last.reply) {
                    (Action::OpenSource(_), Reply::Done(r)) => match r {
                        Ok(_) => asks(next, Action::ReadHeader),
                        Err(text) => ends_with(next, FsError::Io(text)),
                    },
                    (Action::ReadHeader, Reply::Name(r)) => match r {
                        Ok(stored) => match file_name_of(encode_utf8(stored)) {
                            Some(base) => asks(next, Action::CheckTaken(join_of(dir, base))),
                            None => ends_with(next, FsError::InvalidFilenameInMetadata),
                        },
                        Err(e) => ends_with(next, e),
                    },
                    (Action::CheckTaken(_), Reply::Answer(taken)) => if !taken {
                        asks(
                            next,
                            Action::CreateOutput(
                                join_of(
                                    dir,
                                    encode_utf8("."@) + encode_utf8(last.drawn) + encode_utf8(
                                        ".tmp"@,
                                    ),
                                ),
                            ),
                        )
                    } else {
                        &&& done[1].reply matches Reply::Name(Ok(stored))
                        &&& match unique_path_of(
                            join_of(dir, file_name_of(encode_utf8(stored))->Some_0),
                            (n - 2) as u64,
                        ) {
                            Ok(variant) => asks(next, Action::CheckTaken(variant)),
                            Err(e) => ends_with(next, e),
                        }
                    },
                    (Action::CreateOutput(_), Reply::Done(r)) => match r {
                        Ok(_) => asks(next, Action::DecryptInto),
                        Err(text) => ends_with(next, FsError::Io(text)),
                    },
                    (Action::DecryptInto, Reply::Outcome(r)) => match r {
                        Ok(_) => asks(next, Action::SyncOutput),
                        Err(_) => done[n - 2].asked matches Action::CreateOutput(temporary) && asks(
                            next,
                            Action::SecureDelete(temporary),
                        ),
                    },
                    (Action::SyncOutput, Reply::Done(r)) => match r {
                        Ok(_) => {
                            &&& done[n - 3].asked matches Action::CreateOutput(temporary)
                            &&& done[n - 4].asked matches Action::CheckTaken(target)
                            &&& asks(next, Action::Rename(temporary, target))
                        },
                        Err(text) => ends_with(next, FsError::Io(text)),
                    },
                    (Action::Rename(temporary, _), Reply::Done(r)) => match r {
                        Ok(_) => asks(next, Action::SecureDelete(path)),
                        Err(_) => asks(next, Action::SecureDelete(temporary)),
                    },
                    (Action::SecureDelete(_), Reply::Outcome(r)) => match r {
                        Ok(_) => match done[n - 2].reply {
                            Reply::Outcome(Err(e)) => ends_with(next, e),
                            Reply::Done(Err(text)) => ends_with(next, FsError::RenameFailed(text)),
                            _ => next matches Progress::Finished(Ok(_)),
                        },
                        Err(e) => ends_with(next, e),
                    },
                    _ => false,
                }
            }
        }),
{
    if done.len() > 0 {
        let before = done.drop_last();
        lemma_course(path, before);
        lemma_choice(path, before);
        lemma_decryption(path, before);
        if before.len() > 0 {
            assert(before.last() == done[done.len() - 2]);
        }
        lemma_delete_follows_rename(path, before);
    }
}

/// The container is deleted directly behind the renaming.
proof fn lemma_delete_follows_rename(path: Seq<u8>, done: Seq<Exchange<Seq<char>>>)
    requires
        is_decryption(path, done),
    ensures
        decryption_at(path, done) matches Progress::Running(DecryptFile::Delete { .. })
            ==> done.len() > 0 && (done.last().reply matches Reply::Done(Ok(_))),
{
    if done.len() > 0 {
        lemma_course(path, done.drop_last());
    }
}

impl DecryptFile<Vec<u8>, String> {
    /// Begins to decrypt the container at `path`, and says so.
    pub fn begin(path: &[u8]) -> (r: (Self, Notice<Vec<u8>, String>))
        ensures
            r.0@ == (DecryptFileView::OpenSource { path: path@ }),
            r.0@.wf(),
            r.1@ == NoticeView::Processing(path@),
    {
        (DecryptFile::OpenSource { path: copied(path) }, Notice::Processing(copied(path)))
    }

    /// The action that the decryption waits for.
    pub fn action(&self) -> (act: Action<Vec<u8>, String>)
        ensures
            act@ == self@.pending(),
    {
        match self {
            DecryptFile::OpenSource { path } => Action::OpenSource(copied(path.as_slice())),
            DecryptFile::ReadHeader { .. } => Action::ReadHeader,
            DecryptFile::Choose { variant, .. } => Action::CheckTaken(copied(variant.as_slice())),
            DecryptFile::CreateOutput { temporary, .. } => {
                Action::CreateOutput(copied(temporary.as_slice()))
            },
            DecryptFile::Decrypt { .. } => Action::DecryptInto,
            DecryptFile::Sync { .. } => Action::SyncOutput,
            DecryptFile::Rename { target, temporary, .. } => {
                Action::Rename(copied(temporary.as_slice()), copied(target.as_slice()))
            },
            DecryptFile::Discard { temporary, .. } => {
                Action::SecureDelete(copied(temporary.as_slice()))
            },
            DecryptFile::Delete { path, .. } => Action::SecureDelete(copied(path.as_slice())),
        }
    }
}

/// Tries the next variant of `wanted`, after `taken` variants that were taken.
fn choose_variant(path: Vec<u8>, wanted: Vec<u8>, taken: u64) -> (r: Progress<
    DecryptFile<Vec<u8>, String>,
    Vec<u8>,
    String,
>)
    ensures
        progress_view(r) == choosing(path@, wanted@, taken),
        r matches Progress::Running(next) ==> next@.wf(),
{
    match get_unique_path(wanted.as_slice(), taken) {
        Ok(variant) => Progress::Running(DecryptFile::Choose { path, wanted, variant, taken }),
        Err(e) => Progress::Finished(Err(e)),
    }
}

/// Goes on with the decryption of a container after a reply, with this random
/// name.
pub fn decrypt_file_with(op: DecryptFile<Vec<u8>, String>, reply: FileReply, name: &str) -> (r: (
    Progress<DecryptFile<Vec<u8>, String>, Vec<u8>, String>,
    Option<Notice<Vec<u8>, String>>,
))
    requires
        op@.wf(),
        answers(op@.pending(), reply@),
    ensures
        (progress_view(r.0), say_view(r.1)) == op@.after(reply@, name@),
        r.0 matches Progress::Running(next) ==> next@.wf(),
{
    match (op, reply) {
        (DecryptFile::OpenSource { path }, Reply::Done(Ok(_))) => {
            (Progress::Running(DecryptFile::ReadHeader { path }), None)
        },
        (DecryptFile::ReadHeader { path }, Reply::Name(Ok(stored))) => {
            match file_name(stored.as_str().as_bytes()) {
                Some(base) => {
                    let dir = parent_directory(path.as_slice());
                    let wanted = join(dir.as_slice(), base);
                    (choose_variant(path, wanted, 0), None)
                },
                None => (Progress::Finished(Err(FsError::InvalidFilenameInMetadata)), None),
            }
        },
        (DecryptFile::Choose { path, wanted, variant, taken }, Reply::Answer(is_taken)) => {
            if is_taken {
                return (choose_variant(path, wanted, taken + 1), None);
            }
            let dir = parent_directory(path.as_slice());
            let temporary = temporary_path(dir.as_slice(), name);
            (
                Progress::Running(DecryptFile::CreateOutput { path, target: variant, temporary }),
                None,
            )
        },
        (DecryptFile::CreateOutput { path, target, temporary }, Reply::Done(Ok(_))) => {
            (Progress::Running(DecryptFile::Decrypt { path, target, temporary }), None)
        },
        (DecryptFile::Decrypt { path, target, temporary }, Reply::Outcome(outcome)) => {
            match outcome {
                Ok(_) => (Progress::Running(DecryptFile::Sync { path, target, temporary }), None),
                Err(error) => (Progress::Running(DecryptFile::Discard { temporary, error }), None),
            }
        },
        (DecryptFile::Sync { path, target, temporary }, Reply::Done(Ok(_))) => {
            (Progress::Running(DecryptFile::Rename { path, target, temporary }), None)
        },
        (DecryptFile::Rename { path, target, temporary }, Reply::Done(done)) => {
            match done {
                Ok(_) => (Progress::Running(DecryptFile::Delete { path, target }), None),
                Err(text) => {
                    let error = FsError::RenameFailed(text);
                    (Progress::Running(DecryptFile::Discard { temporary, error }), None)
                },
            }
        },
        (DecryptFile::Discard { temporary: _, error }, Reply::Outcome(Ok(_))) => {
            (Progress::Finished(Err(error)), None)
        },
        (DecryptFile::Delete { path: _, target }, Reply::Outcome(Ok(_))) => {
            let shown = match file_name(target.as_slice()) {
                Some(name) => copied(name),
                None => Vec::new(),
            };
            (Progress::Finished(Ok(())), Some(Notice::Restored(shown)))
        },
        (_, Reply::Name(Err(e))) => (Progress::Finished(Err(e)), None),
        (_, Reply::Outcome(Err(e))) => (Progress::Finished(Err(e)), None),
        (_, Reply::Done(Err(text))) => (Progress::Finished(Err(FsError::Io(text))), None),
        (_, _) => (Progress::Finished(Ok(())), None),
    }
}

/// Goes on with the decryption of a container after a reply.
pub fn decrypt_file(op: DecryptFile<Vec<u8>, String>, reply: FileReply) -> (r: (
    Progress<DecryptFile<Vec<u8>, String>, Vec<u8>, String>,
    Option<Notice<Vec<u8>, String>>,
))
    requires
        op@.wf(),
        answers(op@.pending(), reply@),
    ensures
        exists|name: Seq<char>|
            is_random_name(name) && (progress_view(r.0), say_view(r.1)) == #[trigger] op@.after(
                reply@,
                name,
            ),
        r.0 matches Progress::Running(next) ==> next@.wf(),
{
    let name = new_name();
    decrypt_file_with(op, reply, name.as_str())
}

/// A file is said to be restored, under the name that it has got, once it was
/// decrypted and its ciphertext deleted. Nothing else is said.
pub proof fn law_decryption_says_what_happens(s: DecryptFileView, reply: ReplyView, name: Seq<char>)
    requires
        answers(s.pending(), reply),
    ensures
        ({
            let said = s.after(reply, name).1;
            match s {
                DecryptFile::Delete { target, .. } => if succeeded(reply) {
                    said matches Some(Notice::Restored(shown)) && (file_name_of(target) is Some
                        ==> Some(shown) == file_name_of(target))
                } else {
                    said is None
                },
                _ => said is None,
            }
        }),
{
}

} // verus!

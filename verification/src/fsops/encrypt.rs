//! Encryption of one file in its place.

use vstd::prelude::*;
use vstd::utf8::encode_utf8;
use crate::bytes::copied;
use crate::fsops::action::{
    answers, failed, progress_view, say_view, succeeded, Action, ActionView, Exchange, FileKind,
    FileReply, Notice, NoticeView, Progress, Reply, ReplyView,
};
use crate::fsops::error::{FileErrorView, FsError};
use crate::fsops::naming::{
    ciphertext_path_of, is_random_name, law_random_names_stay, new_name,
    reserve_ciphertext_path, reserved_path_of, MAX_NAME_ATTEMPTS,
};
use crate::paths::{file_name, file_name_of, join_of, parent_directory, parent_of, parent_or_dot};
use crate::text::{lossy_of, lossy_text};

verus! {

/// The file size above which a progress bar is shown.
pub const PROGRESS_THRESHOLD: u64 = 1024 * 1024;

/// The length of the progress bar for a file of this size, if one is shown.
pub open spec fn progress_bar_of(file_size: u64) -> Option<u64> {
    if file_size <= PROGRESS_THRESHOLD {
        None
    } else {
        Some(file_size)
    }
}

/// The length of the progress bar for a file of this size, if one is shown.
pub fn progress_bar(file_size: u64) -> (bar: Option<u64>)
    ensures
        bar == progress_bar_of(file_size),
{
    if file_size <= PROGRESS_THRESHOLD {
        return None;
    }
    Some(file_size)
}

/// The state of the encryption of a file.
#[derive(Debug)]
pub enum EncryptFile<P, T> {
    /// The file is looked at.
    Stat { path: P },
    /// The name `output` is looked up, after this many names that were taken.
    Reserve { path: P, size: u64, output: P, tried: usize },
    /// The file is opened.
    OpenSource { path: P, size: u64, output: P },
    /// The ciphertext is created.
    CreateOutput { path: P, size: u64, output: P },
    /// The file is encrypted.
    Encrypt { path: P, size: u64, output: P },
    /// The incomplete ciphertext is removed after this error.
    Discard { output: P, error: FsError<P, T> },
    /// The ciphertext is brought to the disk.
    Sync { path: P },
    /// The file is deleted.
    Delete { path: P },
}

/// [`EncryptFile`] as contracts speak of it.
pub type EncryptFileView = EncryptFile<Seq<u8>, Seq<char>>;

impl View for EncryptFile<Vec<u8>, String> {
    type V = EncryptFile<Seq<u8>, Seq<char>>;

    open spec fn view(&self) -> EncryptFile<Seq<u8>, Seq<char>> {
        match *self {
            EncryptFile::Stat { path } => EncryptFile::Stat { path: path@ },
            EncryptFile::Reserve { path, size, output, tried } => EncryptFile::Reserve {
                path: path@,
                size,
                output: output@,
                tried,
            },
            EncryptFile::OpenSource { path, size, output } => EncryptFile::OpenSource {
                path: path@,
                size,
                output: output@,
            },
            EncryptFile::CreateOutput { path, size, output } => EncryptFile::CreateOutput {
                path: path@,
                size,
                output: output@,
            },
            EncryptFile::Encrypt { path, size, output } => EncryptFile::Encrypt {
                path: path@,
                size,
                output: output@,
            },
            EncryptFile::Discard { output, error } => EncryptFile::Discard {
                output: output@,
                error: error@,
            },
            EncryptFile::Sync { path } => EncryptFile::Sync { path: path@ },
            EncryptFile::Delete { path } => EncryptFile::Delete { path: path@ },
        }
    }
}

/// What follows when `tried` names were taken and `name` is tried next.
pub open spec fn reserving(path: Seq<u8>, size: u64, tried: usize, name: Seq<char>) -> Progress<
    EncryptFileView,
    Seq<u8>,
    Seq<char>,
> {
    match reserved_path_of(parent_or_dot(path), tried, name) {
        Ok(output) => Progress::Running(EncryptFile::Reserve { path, size, output, tried }),
        Err(e) => Progress::Finished(Err(e)),
    }
}

/// The name that a file is encrypted under.
pub open spec fn stored_name(path: Seq<u8>) -> Seq<char> {
    lossy_of(file_name_of(path)->Some_0)
}

impl EncryptFile<Seq<u8>, Seq<char>> {
    /// The action that the encryption waits for.
    pub open spec fn pending(self) -> ActionView {
        match self {
            EncryptFile::Stat { path } => Action::Stat(path),
            EncryptFile::Reserve { output, .. } => Action::CheckTaken(output),
            EncryptFile::OpenSource { path, .. } => Action::OpenSource(path),
            EncryptFile::CreateOutput { output, .. } => Action::CreateOutput(output),
            EncryptFile::Encrypt { path, size, .. } => Action::EncryptInto(
                stored_name(path),
                progress_bar_of(size),
            ),
            EncryptFile::Discard { output, .. } => Action::Remove(output),
            EncryptFile::Sync { .. } => Action::SyncOutput,
            EncryptFile::Delete { path } => Action::SecureDelete(path),
        }
    }

    /// Whether a file that is being encrypted has a name, and no more names
    /// were tried than are allowed.
    pub open spec fn wf(self) -> bool {
        match self {
            EncryptFile::Reserve { tried, .. } => tried < MAX_NAME_ATTEMPTS,
            EncryptFile::OpenSource { path, .. } => file_name_of(path) is Some,
            EncryptFile::CreateOutput { path, .. } => file_name_of(path) is Some,
            EncryptFile::Encrypt { path, .. } => file_name_of(path) is Some,
            _ => true,
        }
    }

    /// What follows a reply, and what is shown before. `name` is random.
    pub open spec fn after(self, reply: ReplyView, name: Seq<char>) -> (
        Progress<EncryptFileView, Seq<u8>, Seq<char>>,
        Option<NoticeView>,
    ) {
        match (self, reply) {
            (EncryptFile::Stat { path }, Reply::Meta(Ok((FileKind::Symlink, _)))) => (
                Progress::Finished(Ok(())),
                Some(Notice::SkippingSymlink(path)),
            ),
            (EncryptFile::Stat { path }, Reply::Meta(Ok((_, size)))) => (
                reserving(path, size, 0, name),
                None,
            ),
            (EncryptFile::Reserve { path, size, output, tried }, Reply::Answer(taken)) => if taken {
                (reserving(path, size, (tried + 1) as usize, name), None)
            } else if file_name_of(path) is None {
                (
                    Progress::Finished(Err(FsError::InvalidFilename)),
                    Some(Notice::Encrypting(path)),
                )
            } else {
                (
                    Progress::Running(EncryptFile::OpenSource { path, size, output }),
                    Some(Notice::Encrypting(path)),
                )
            },
            (EncryptFile::OpenSource { path, size, output }, Reply::Done(Ok(_))) => (
                Progress::Running(EncryptFile::CreateOutput { path, size, output }),
                None,
            ),
            (EncryptFile::CreateOutput { path, size, output }, Reply::Done(Ok(_))) => (
                Progress::Running(EncryptFile::Encrypt { path, size, output }),
                None,
            ),
            (EncryptFile::Encrypt { path, .. }, Reply::Outcome(Ok(_))) => (
                Progress::Running(EncryptFile::Sync { path }),
                None,
            ),
            (EncryptFile::Encrypt { output, .. }, Reply::Outcome(Err(error))) => (
                Progress::Running(EncryptFile::Discard { output, error }),
                None,
            ),
            (EncryptFile::Discard { error, .. }, _) => (Progress::Finished(Err(error)), None),
            (EncryptFile::Sync { path }, Reply::Done(Ok(_))) => (
                Progress::Running(EncryptFile::Delete { path }),
                None,
            ),
            (EncryptFile::Delete { .. }, Reply::Outcome(Ok(_))) => (
                Progress::Finished(Ok(())),
                Some(Notice::FileEncrypted),
            ),
            (EncryptFile::Delete { .. }, Reply::Outcome(Err(e))) => (
                Progress::Finished(Err(e)),
                None,
            ),
            (_, Reply::Meta(Err(text))) => (Progress::Finished(Err(FsError::Io(text))), None),
            (_, Reply::Done(Err(text))) => (Progress::Finished(Err(FsError::Io(text))), None),
            _ => arbitrary(),
        }
    }
}

/// Where the encryption of `path` stands after the exchanges `done`.
pub open spec fn encryption_at(path: Seq<u8>, done: Seq<Exchange<Seq<char>>>) -> Progress<
    EncryptFileView,
    Seq<u8>,
    Seq<char>,
>
    decreases done.len(),
{
    if done.len() == 0 {
        Progress::Running(EncryptFile::Stat { path })
    } else {
        match encryption_at(path, done.drop_last()) {
            Progress::Running(s) => s.after(done.last().reply, done.last().drawn).0,
            Progress::Finished(r) => Progress::Finished(r),
        }
    }
}

/// Whether `done` are exchanges of the encryption of `path`, from its beginning
/// on.
pub open spec fn is_encryption(path: Seq<u8>, done: Seq<Exchange<Seq<char>>>) -> bool
    decreases done.len(),
{
    done.len() > 0 ==> {
        &&& is_encryption(path, done.drop_last())
        &&& encryption_at(path, done.drop_last()) matches Progress::Running(s)
        &&& done.last().asked == s.pending()
        &&& answers(s.pending(), done.last().reply)
        &&& is_random_name(done.last().drawn)
    }
}

/// Whether `output` is a path for the ciphertext of `path`: next to it, with a
/// random name.
pub open spec fn is_output(path: Seq<u8>, output: Seq<u8>) -> bool {
    exists|name: Seq<char>| #[trigger]
        is_random_name(name) && output == ciphertext_path_of(parent_or_dot(path), name)
}

/// Whether the last exchanges of `done` were these, `steps` of them: `output`
/// was not found to exist, the file was opened, `output` was created, the file
/// was encrypted into it under its name, and it was brought to the disk.
pub open spec fn sealed_into(
    path: Seq<u8>,
    output: Seq<u8>,
    done: Seq<Exchange<Seq<char>>>,
    steps: int,
) -> bool {
    let first = done.len() - steps;
    &&& first >= 0
    &&& steps >= 1 ==> done[first].asked == ActionView::CheckTaken(output)
        && done[first].reply == ReplyView::Answer(false)
    &&& steps >= 2 ==> done[first + 1].asked == ActionView::OpenSource(path) && succeeded(
        done[first + 1].reply,
    )
    &&& steps >= 3 ==> done[first + 2].asked == ActionView::CreateOutput(output) && succeeded(
        done[first + 2].reply,
    )
    &&& steps >= 4 ==> (done[first + 3].asked matches Action::EncryptInto(name, _) && name
        == stored_name(path)) && succeeded(done[first + 3].reply)
    &&& steps >= 5 ==> done[first + 4].asked == ActionView::SyncOutput && succeeded(
        done[first + 4].reply,
    )
}

proof fn lemma_encryption(path: Seq<u8>, done: Seq<Exchange<Seq<char>>>)
    requires
        is_encryption(path, done),
    ensures
        match encryption_at(path, done) {
            Progress::Running(s) => {
                &&& s.wf()
                &&& match s {
                    EncryptFile::Stat { path: p } => p == path && done.len() == 0,
                    EncryptFile::Reserve { path: p, output, .. } => p == path && is_output(
                        path,
                        output,
                    ),
                    EncryptFile::OpenSource { path: p, output, .. } => {
                        &&& p == path
                        &&& is_output(path, output)
                        &&& sealed_into(path, output, done, 1)
                    },
                    EncryptFile::CreateOutput { path: p, output, .. } => {
                        &&& p == path
                        &&& is_output(path, output)
                        &&& sealed_into(path, output, done, 2)
                    },
                    EncryptFile::Encrypt { path: p, output, .. } => {
                        &&& p == path
                        &&& is_output(path, output)
                        &&& sealed_into(path, output, done, 3)
                    },
                    EncryptFile::Discard { output, error } => {
                        &&& sealed_into(path, output, done.drop_last(), 3)
                        &&& done.last().asked is EncryptInto
                        &&& done.last().reply == ReplyView::Outcome(Err(error))
                    },
                    EncryptFile::Sync { path: p } => p == path && exists|output: Seq<u8>|
                        is_output(path, output) && sealed_into(path, output, done, 4),
                    EncryptFile::Delete { path: p } => p == path && exists|output: Seq<u8>|
                        is_output(path, output) && sealed_into(path, output, done, 5),
                }
            },
            Progress::Finished(Ok(_)) => {
                ||| done.len() == 1 && (done[0].reply matches Reply::Meta(Ok((kind, _))) && kind
                    == FileKind::Symlink)
                ||| done.len() > 1 && done.last().asked == ActionView::SecureDelete(path)
                    && succeeded(done.last().reply)
            },
            Progress::Finished(Err(_)) => done.len() > 0 && !(done.last().asked is SecureDelete
                && succeeded(done.last().reply)),
        },
    decreases done.len(),
{
    if done.len() > 0 {
        let before = done.drop_last();
        lemma_encryption(path, before);
        let s = encryption_at(path, before)->Running_0;
        if let EncryptFile::Encrypt { output, .. } = s {
            if encryption_at(path, done)->Running_0 is Sync {
                assert(sealed_into(path, output, done, 4));
            }
        }
        if s is Sync && encryption_at(path, done) is Running {
            let output = choose|output: Seq<u8>|
                is_output(path, output) && sealed_into(path, output, before, 4);
            assert(sealed_into(path, output, done, 5));
        }
    }
}

/// The file is deleted only when it was encrypted completely into a ciphertext
/// with a random name next to it that was not there before, and that was brought
/// to the disk.
pub proof fn law_deleted_only_when_sealed(path: Seq<u8>, done: Seq<Exchange<Seq<char>>>)
    requires
        is_encryption(path, done),
        encryption_at(path, done) matches Progress::Running(s) && s.pending() is SecureDelete,
    ensures
        encryption_at(path, done)->Running_0.pending() == ActionView::SecureDelete(path),
        exists|output: Seq<u8>| is_output(path, output) && sealed_into(path, output, done, 5),
{
    lemma_encryption(path, done);
}

/// When the encryption fails, the incomplete ciphertext is removed, and the
/// error is reported whatever comes of the removal.
pub proof fn law_failure_is_discarded(
    path: Seq<u8>,
    done: Seq<Exchange<Seq<char>>>,
    error: FileErrorView,
    last: Exchange<Seq<char>>,
)
    requires
        is_encryption(path, done),
        done.len() > 0,
        done.last().asked is EncryptInto,
        done.last().reply == ReplyView::Outcome(Err(error)),
        is_encryption(path, done.push(last)),
    ensures
        exists|output: Seq<u8>|
            sealed_into(path, output, done.drop_last(), 3) && last.asked == ActionView::Remove(
                output,
            ),
        encryption_at(path, done.push(last)) == Progress::<
            EncryptFileView,
            Seq<u8>,
            Seq<char>,
        >::Finished(Err(error)),
{
    lemma_encryption(path, done);
    lemma_encryption(path, done.drop_last());
    assert(done.push(last).drop_last() =~= done);
}

/// An encryption that reports an error has not deleted the file.
pub proof fn law_failure_keeps_file(path: Seq<u8>, done: Seq<Exchange<Seq<char>>>, i: int)
    requires
        is_encryption(path, done),
        encryption_at(path, done) matches Progress::Finished(Err(_)),
        0 <= i < done.len(),
    ensures
        !(done[i].asked is SecureDelete && succeeded(done[i].reply)),
{
    lemma_encryption(path, done);
    if i < done.len() - 1 {
        lemma_running_keeps_file(path, done.drop_last(), i);
    }
}

proof fn lemma_running_keeps_file(path: Seq<u8>, done: Seq<Exchange<Seq<char>>>, i: int)
    requires
        is_encryption(path, done),
        encryption_at(path, done) is Running,
        0 <= i < done.len(),
    ensures
        !(done[i].asked is SecureDelete),
    decreases done.len(),
{
    lemma_encryption(path, done.drop_last());
    if i < done.len() - 1 {
        lemma_running_keeps_file(path, done.drop_last(), i);
    }
}

/// An encryption that reports success has deleted the file last, after it was
/// encrypted completely into a ciphertext with a random name next to it, unless
/// a symbolic link stands at the path.
pub proof fn law_success_sealed(path: Seq<u8>, done: Seq<Exchange<Seq<char>>>)
    requires
        is_encryption(path, done),
        encryption_at(path, done) matches Progress::Finished(Ok(_)),
        !(done[0].reply matches Reply::Meta(Ok((FileKind::Symlink, _)))),
    ensures
        done.last().asked == ActionView::SecureDelete(path),
        succeeded(done.last().reply),
        exists|output: Seq<u8>|
            is_output(path, output) && sealed_into(path, output, done.drop_last(), 5),
{
    lemma_encryption(path, done);
    lemma_encryption(path, done.drop_last());
}

/// Whether, in the exchanges `done` of an encryption, all names that were drawn
/// for the ciphertext were found to be taken.
pub open spec fn all_names_taken(done: Seq<Exchange<Seq<char>>>) -> bool {
    &&& done.len() >= 1 + MAX_NAME_ATTEMPTS
    &&& forall|i: int|
        1 <= i < 1 + MAX_NAME_ATTEMPTS ==> (#[trigger] done[i]).reply == ReplyView::Answer(true)
}

/// Whether nothing failed in the exchanges `done`, and a name for the ciphertext
/// was free.
pub open spec fn goes_well(done: Seq<Exchange<Seq<char>>>) -> bool {
    &&& forall|i: int| 0 <= i < done.len() ==> !failed((#[trigger] done[i]).reply)
    &&& !all_names_taken(done)
}

proof fn lemma_goes_well(path: Seq<u8>, done: Seq<Exchange<Seq<char>>>)
    requires
        is_encryption(path, done),
        file_name_of(path) is Some,
        goes_well(done),
    ensures
        match encryption_at(path, done) {
            Progress::Running(EncryptFile::Reserve { tried, .. }) => {
                &&& done.len() == 1 + tried
                &&& tried < MAX_NAME_ATTEMPTS
                &&& forall|i: int|
                    1 <= i < done.len() ==> (#[trigger] done[i]).reply == ReplyView::Answer(true)
            },
            Progress::Running(s) => !(s is Discard) && (s is Stat ==> done.len() == 0),
            Progress::Finished(r) => r is Ok,
        },
    decreases done.len(),
{
    if done.len() > 0 {
        let before = done.drop_last();
        assert forall|i: int| 0 <= i < before.len() implies !failed(
            (#[trigger] before[i]).reply,
        ) by {
            assert(before[i] == done[i]);
        }
        if all_names_taken(before) {
            assert forall|i: int| 1 <= i < 1 + MAX_NAME_ATTEMPTS implies (
            #[trigger] done[i]).reply == ReplyView::Answer(true) by {
                assert(before[i] == done[i]);
            }
        }
        lemma_goes_well(path, before);
        lemma_encryption(path, before);
        assert(!failed(done[done.len() - 1].reply));
        if encryption_at(path, before)->Running_0 is Reserve && done.last().reply
            == ReplyView::Answer(true) {
            assert forall|i: int| 1 <= i < done.len() implies (#[trigger] done[i]).reply
                == ReplyView::Answer(true) by {
                if i < before.len() {
                    assert(before[i] == done[i]);
                }
            }
        }
    }
}

/// An encryption of a path that has a file name, in which nothing fails and a
/// name for the ciphertext is free, succeeds.
pub proof fn law_faithful_encryption_succeeds(path: Seq<u8>, done: Seq<Exchange<Seq<char>>>)
    requires
        is_encryption(path, done),
        encryption_at(path, done) is Finished,
        file_name_of(path) is Some,
        goes_well(done),
    ensures
        encryption_at(path, done) matches Progress::Finished(Ok(_)),
{
    lemma_goes_well(path, done);
}

/// A symbolic link is neither opened nor changed: nothing is asked for but what
/// stands at the path.
pub proof fn law_symlink_is_skipped(path: Seq<u8>, done: Seq<Exchange<Seq<char>>>)
    requires
        is_encryption(path, done),
        done.len() > 0,
        done[0].reply matches Reply::Meta(Ok((kind, _))) && kind == FileKind::Symlink,
    ensures
        done.len() == 1,
        done[0].asked == ActionView::Stat(path),
        encryption_at(path, done) matches Progress::Finished(Ok(_)),
    decreases done.len(),
{
    lemma_encryption(path, done.drop_last());
    if done.len() > 1 {
        law_symlink_is_skipped(path, done.drop_last());
    } else {
        assert(done.drop_last() =~= Seq::empty());
    }
}

/// The ciphertext is created next to the file.
pub proof fn law_ciphertext_stays(path: Seq<u8>, done: Seq<Exchange<Seq<char>>>)
    requires
        is_encryption(path, done),
        encryption_at(path, done) matches Progress::Running(s) && s.pending() is CreateOutput,
    ensures
        encryption_at(path, done)->Running_0.pending() matches Action::CreateOutput(output)
            && parent_of(output) == Some(parent_or_dot(path)),
{
    lemma_ciphertext_stays(path, done);
}

proof fn lemma_ciphertext_stays(path: Seq<u8>, done: Seq<Exchange<Seq<char>>>)
    requires
        is_encryption(path, done),
    ensures
        match encryption_at(path, done) {
            Progress::Running(EncryptFile::Reserve { output, .. }) => parent_of(output)
                == Some(parent_or_dot(path)),
            Progress::Running(EncryptFile::OpenSource { output, .. }) => parent_of(output)
                == Some(parent_or_dot(path)),
            Progress::Running(EncryptFile::CreateOutput { output, .. }) => parent_of(output)
                == Some(parent_or_dot(path)),
            _ => true,
        },
    decreases done.len(),
{
    if done.len() > 0 {
        lemma_ciphertext_stays(path, done.drop_last());
        lemma_encryption(path, done.drop_last());
        law_random_names_stay(path, done.last().drawn);
    }
}

/// Whether the encryption asks for `action` next.
pub open spec fn asks(
    next: Progress<EncryptFileView, Seq<u8>, Seq<char>>,
    action: ActionView,
) -> bool {
    next matches Progress::Running(s) && s.pending() == action
}

/// Whether the encryption ends with `error`.
pub open spec fn ends_with(
    next: Progress<EncryptFileView, Seq<u8>, Seq<char>>,
    error: FileErrorView,
) -> bool {
    next matches Progress::Finished(r) && r == Err::<(), FileErrorView>(error)
}

/// Where an encryption stands, by what it was answered last.
proof fn lemma_course(path: Seq<u8>, done: Seq<Exchange<Seq<char>>>)
    requires
        is_encryption(path, done),
    ensures
        match encryption_at(path, done) {
            Progress::Running(EncryptFile::Stat { path: p }) => p == path && done.len() == 0,
            Progress::Running(EncryptFile::Reserve { path: p, size, output, tried }) => {
                &&& p == path
                &&& done.len() == 1 + tried
                &&& tried < 64
                &&& output == join_of(
                    parent_or_dot(path),
                    encode_utf8(done.last().drawn) + encode_utf8(".enc"@),
                )
                &&& done[0].reply matches Reply::Meta(Ok((_, found)))
                &&& found == size
            },
            Progress::Running(EncryptFile::OpenSource { path: p, size, output }) => {
                &&& p == path
                &&& done.len() >= 2
                &&& done.last().asked == ActionView::CheckTaken(output)
                &&& done[0].reply matches Reply::Meta(Ok((_, found)))
                &&& found == size
            },
            Progress::Running(EncryptFile::CreateOutput { path: p, size, output }) => {
                &&& p == path
                &&& done.len() >= 3
                &&& done[done.len() - 2].asked == ActionView::CheckTaken(output)
                &&& done[0].reply matches Reply::Meta(Ok((_, found)))
                &&& found == size
            },
            Progress::Running(EncryptFile::Encrypt { path: p, size, output }) => {
                &&& p == path
                &&& done.len() >= 4
                &&& done.last().asked == ActionView::CreateOutput(output)
                &&& done[0].reply matches Reply::Meta(Ok((_, found)))
                &&& found == size
            },
            Progress::Running(EncryptFile::Discard { output, error }) => {
                &&& done.len() >= 5
                &&& done[done.len() - 2].asked == ActionView::CreateOutput(output)
                &&& done.last().reply == ReplyView::Outcome(Err(error))
            },
            Progress::Running(EncryptFile::Sync { path: p }) => p == path,
            Progress::Running(EncryptFile::Delete { path: p }) => p == path,
            Progress::Finished(_) => true,
        },
    decreases done.len(),
{
    if done.len() > 0 {
        lemma_course(path, done.drop_last());
        if done.len() > 1 {
            assert(done.drop_last()[0] == done[0]);
        }
    }
}

/// What an encryption asks for follows from the answers to what it has asked for
/// before: it looks at the path, draws names for the ciphertext until one is free,
/// encrypts the file into it under the name of the file, brings it to the disk, and
/// deletes the file. Nothing else decides: neither the size of the file, but for
/// the progress bar, nor its kind, unless it is a link.
pub proof fn law_encryption_follows_its_course(path: Seq<u8>, done: Seq<Exchange<Seq<char>>>)
    requires
        is_encryption(path, done),
    ensures
        ({
            let next = encryption_at(path, done);
            let n = done.len();
            if n == 0 {
                asks(next, Action::Stat(path))
            } else {
                let last = done.last();
                let drawn = join_of(
                    parent_or_dot(path),
                    encode_utf8(last.drawn) + encode_utf8(".enc"@),
                );
                match (last.asked, last.reply) {
                    (Action::Stat(_), Reply::Meta(r)) => match r {
                        Ok((FileKind::Symlink, _)) => next matches Progress::Finished(Ok(_)),
                        Ok(_) => asks(next, Action::CheckTaken(drawn)),
                        Err(text) => ends_with(next, FsError::Io(text)),
                    },
                    (Action::CheckTaken(_), Reply::Answer(taken)) => if taken {
                        if n < 65 {
                            asks(next, Action::CheckTaken(drawn))
                        } else {
                            ends_with(next, FsError::NoCiphertextName)
                        }
                    } else if file_name_of(path) is None {
                        ends_with(next, FsError::InvalidFilename)
                    } else {
                        asks(next, Action::OpenSource(path))
                    },
                    (Action::OpenSource(_), Reply::Done(r)) => match r {
                        Ok(_) => done[n - 2].asked matches Action::CheckTaken(output) && asks(
                            next,
                            Action::CreateOutput(output),
                        ),
                        Err(text) => ends_with(next, FsError::Io(text)),
                    },
                    (Action::CreateOutput(_), Reply::Done(r)) => match r {
                        Ok(_) => {
                            &&& done[0].reply matches Reply::Meta(Ok((_, size)))
                            &&& asks(
                                next,
                                Action::EncryptInto(
                                    lossy_of(file_name_of(path)->Some_0),
                                    if size <= 1024 * 1024 {
                                        None
                                    } else {
                                        Some(size)
                                    },
                                ),
                            )
                        },
                        Err(text) => ends_with(next, FsError::Io(text)),
                    },
                    (Action::EncryptInto(_, _), Reply::Outcome(r)) => match r {
                        Ok(_) => asks(next, Action::SyncOutput),
                        Err(_) => done[n - 2].asked matches Action::CreateOutput(output) && asks(
                            next,
                            Action::Remove(output),
                        ),
                    },
                    (Action::Remove(_), Reply::Done(_)) => done[n - 2].reply matches Reply::Outcome(
                        Err(e),
                    ) && ends_with(next, e),
                    (Action::SyncOutput, Reply::Done(r)) => match r {
                        Ok(_) => asks(next, Action::SecureDelete(path)),
                        Err(text) => ends_with(next, FsError::Io(text)),
                    },
                    (Action::SecureDelete(_), Reply::Outcome(r)) => match r {
                        Ok(_) => next matches Progress::Finished(Ok(_)),
                        Err(e) => ends_with(next, e),
                    },
                    _ => false,
                }
            }
        }),
{
    if done.len() > 0 {
        let before = done.drop_last();
        lemma_course(path, before);
        if before.len() > 0 {
            assert(before[0] == done[0]);
            assert(before.last() == done[done.len() - 2]);
        }
    }
}

impl EncryptFile<Vec<u8>, String> {
    /// Begins to encrypt the file at `path`.
    pub fn begin(path: &[u8]) -> (op: Self)
        ensures
            op@ == (EncryptFileView::Stat { path: path@ }),
            op@.wf(),
    {
        EncryptFile::Stat { path: copied(path) }
    }

    /// The action that the encryption waits for.
    pub fn action(&self) -> (act: Action<Vec<u8>, String>)
        requires
            self@.wf(),
        ensures
            act@ == self@.pending(),
    {
        match self {
            EncryptFile::Stat { path } => Action::Stat(copied(path.as_slice())),
            EncryptFile::Reserve { output, .. } => Action::CheckTaken(copied(output.as_slice())),
            EncryptFile::OpenSource { path, .. } => Action::OpenSource(copied(path.as_slice())),
            EncryptFile::CreateOutput { output, .. } => {
                Action::CreateOutput(copied(output.as_slice()))
            },
            EncryptFile::Encrypt { path, size, .. } => {
                let name = match file_name(path.as_slice()) {
                    Some(name) => lossy_text(name),
                    None => String::new(),
                };
                Action::EncryptInto(name, progress_bar(*size))
            },
            EncryptFile::Discard { output, .. } => Action::Remove(copied(output.as_slice())),
            EncryptFile::Sync { .. } => Action::SyncOutput,
            EncryptFile::Delete { path } => Action::SecureDelete(copied(path.as_slice())),
        }
    }
}

/// Tries `name` for the ciphertext, after `tried` names that were taken.
fn reserve(path: Vec<u8>, size: u64, tried: usize, name: &str) -> (r: Progress<
    EncryptFile<Vec<u8>, String>,
    Vec<u8>,
    String,
>)
    ensures
        progress_view(r) == reserving(path@, size, tried, name@),
        r matches Progress::Running(next) ==> next@.wf(),
{
    let dir = parent_directory(path.as_slice());
    match reserve_ciphertext_path(dir.as_slice(), tried, name) {
        Ok(output) => Progress::Running(EncryptFile::Reserve { path, size, output, tried }),
        Err(e) => Progress::Finished(Err(e)),
    }
}

/// Goes on with the encryption of a file after a reply, with this random name.
pub fn encrypt_file_with(op: EncryptFile<Vec<u8>, String>, reply: FileReply, name: &str) -> (r: (
    Progress<EncryptFile<Vec<u8>, String>, Vec<u8>, String>,
    Option<Notice<Vec<u8>, String>>,
))
    requires
        op@.wf(),
        answers(op@.pending(), reply@),
    ensures
        (progress_view(r.0), say_view(r.1)) == op@.after(reply@, name@),
        r.0 matches Progress::Running(next) ==> next@.wf(),
{
    match (op, reply) {
        (EncryptFile::Stat { path }, Reply::Meta(Ok((kind, size)))) => {
            match kind {
                FileKind::Symlink => {
                    (Progress::Finished(Ok(())), Some(Notice::SkippingSymlink(path)))
                },
                _ => (reserve(path, size, 0, name), None),
            }
        },
        (EncryptFile::Reserve { path, size, output, tried }, Reply::Answer(taken)) => {
            if taken {
                return (reserve(path, size, tried + 1, name), None);
            }
            let shown = copied(path.as_slice());
            if file_name(path.as_slice()).is_none() {
                return (
                    Progress::Finished(Err(FsError::InvalidFilename)),
                    Some(Notice::Encrypting(shown)),
                );
            }
            (
                Progress::Running(EncryptFile::OpenSource { path, size, output }),
                Some(Notice::Encrypting(shown)),
            )
        },
        (EncryptFile::OpenSource { path, size, output }, Reply::Done(Ok(_))) => {
            (Progress::Running(EncryptFile::CreateOutput { path, size, output }), None)
        },
        (EncryptFile::CreateOutput { path, size, output }, Reply::Done(Ok(_))) => {
            (Progress::Running(EncryptFile::Encrypt { path, size, output }), None)
        },
        (EncryptFile::Encrypt { path, size: _, output }, Reply::Outcome(outcome)) => {
            match outcome {
                Ok(_) => (Progress::Running(EncryptFile::Sync { path }), None),
                Err(error) => (Progress::Running(EncryptFile::Discard { output, error }), None),
            }
        },
        (EncryptFile::Discard { output: _, error }, _) => (Progress::Finished(Err(error)), None),
        (EncryptFile::Sync { path }, Reply::Done(Ok(_))) => {
            (Progress::Running(EncryptFile::Delete { path }), None)
        },
        (EncryptFile::Delete { path: _ }, Reply::Outcome(outcome)) => {
            match outcome {
                Ok(_) => (Progress::Finished(Ok(())), Some(Notice::FileEncrypted)),
                Err(e) => (Progress::Finished(Err(e)), None),
            }
        },
        (_, Reply::Meta(Err(text))) => (Progress::Finished(Err(FsError::Io(text))), None),
        (_, Reply::Done(Err(text))) => (Progress::Finished(Err(FsError::Io(text))), None),
        (_, _) => (Progress::Finished(Ok(())), None),
    }
}

/// Goes on with the encryption of a file after a reply.
pub fn encrypt_file(op: EncryptFile<Vec<u8>, String>, reply: FileReply) -> (r: (
    Progress<EncryptFile<Vec<u8>, String>, Vec<u8>, String>,
    Option<Notice<Vec<u8>, String>>,
))
    requires
        op@.wf(),
        answers(op@.pending(), reply@),
    ensures
        exists|name: Seq<char>|
            is_random_name(name) && (progress_view(r.0), say_view(r.1)) == #[trigger] op@.after(
                reply@,
                name,
            ),
        r.0 matches Progress::Running(next) ==> next@.wf(),
{
    let name = new_name();
    encrypt_file_with(op, reply, name.as_str())
}

/// A link is said to be skipped, a file to be encrypted once it has a name to go to,
/// and to be done with once it was deleted. Nothing else is said.
pub proof fn law_encryption_says_what_happens(s: EncryptFileView, reply: ReplyView, name: Seq<char>)
    requires
        answers(s.pending(), reply),
    ensures
        ({
            let said = s.after(reply, name).1;
            match (s.pending(), reply) {
                (Action::Stat(path), Reply::Meta(Ok((FileKind::Symlink, _)))) => said == Some(
                    NoticeView::SkippingSymlink(path),
                ),
                (Action::CheckTaken(_), Reply::Answer(false)) => s matches EncryptFile::Reserve {
                    path,
                    ..
                } && said == Some(NoticeView::Encrypting(path)),
                (Action::SecureDelete(_), Reply::Outcome(Ok(_))) => said == Some(
                    NoticeView::FileEncrypted,
                ),
                _ => said is None,
            }
        }),
{
}

} // verus!

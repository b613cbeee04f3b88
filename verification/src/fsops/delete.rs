//! Secure deletion: a file is overwritten with random bytes before it is
//! removed.

use vstd::prelude::*;
use crate::bytes::copied;
use crate::crypto::primitives::fill_random;
use crate::fsops::action::{
    answers, failed, progress_view, succeeded, Action, ActionView, Exchange, FileKind, FileReply,
    Progress, Reply, ReplyView,
};
use crate::fsops::error::{FileErrorView, FsError};

verus! {

/// The number of bytes that are overwritten at a time.
pub const OVERWRITE_PIECE: u64 = 4096 * 1024;

/// The state of a secure deletion.
#[derive(Debug)]
pub enum SecureDelete<P> {
    /// The path is looked at.
    Stat(P),
    /// The file, of this length, is opened.
    Open(P, u64),
    /// This many bytes are left to overwrite, the next ones with these.
    Overwrite(P, u64, P),
    /// What was overwritten is brought to the disk.
    Sync(P),
    /// The path is removed.
    Remove(P),
}

/// [`SecureDelete`] as contracts speak of it.
pub type SecureDeleteView = SecureDelete<Seq<u8>>;

impl View for SecureDelete<Vec<u8>> {
    type V = SecureDelete<Seq<u8>>;

    open spec fn view(&self) -> SecureDelete<Seq<u8>> {
        match *self {
            SecureDelete::Stat(path) => SecureDelete::Stat(path@),
            SecureDelete::Open(path, len) => SecureDelete::Open(path@, len),
            SecureDelete::Overwrite(path, left, noise) => SecureDelete::Overwrite(
                path@,
                left,
                noise@,
            ),
            SecureDelete::Sync(path) => SecureDelete::Sync(path@),
            SecureDelete::Remove(path) => SecureDelete::Remove(path@),
        }
    }
}

/// The number of bytes to overwrite next when `left` are left.
pub open spec fn piece_of(left: u64) -> u64 {
    if left < OVERWRITE_PIECE {
        left
    } else {
        OVERWRITE_PIECE
    }
}

/// What follows when `left` bytes are left to overwrite, the next ones with
/// `noise`.
pub open spec fn overwriting(path: Seq<u8>, left: u64, noise: Seq<u8>) -> SecureDeleteView {
    if left == 0 {
        SecureDelete::Sync(path)
    } else {
        SecureDelete::Overwrite(path, left, noise)
    }
}

impl SecureDelete<Seq<u8>> {
    /// The action that the deletion waits for.
    pub open spec fn pending(self) -> ActionView {
        match self {
            SecureDelete::Stat(path) => Action::Stat(path),
            SecureDelete::Open(path, _) => Action::OpenForOverwrite(path),
            SecureDelete::Overwrite(_, _, noise) => Action::Overwrite(noise),
            SecureDelete::Sync(_) => Action::SyncOverwritten,
            SecureDelete::Remove(path) => Action::Remove(path),
        }
    }

    /// Whether the bytes to overwrite with are as many as are due.
    pub open spec fn wf(self) -> bool {
        self matches SecureDelete::Overwrite(_, left, noise) ==> left > 0 && noise.len()
            == piece_of(left)
    }

    /// The number of random bytes that the next state needs.
    pub open spec fn noise_len(self) -> u64 {
        match self {
            SecureDelete::Open(_, len) => piece_of(len),
            SecureDelete::Overwrite(_, left, _) => piece_of((left - piece_of(left)) as u64),
            _ => 0,
        }
    }

    /// The file that is deleted.
    pub open spec fn path(self) -> Seq<u8> {
        match self {
            SecureDelete::Stat(path) => path,
            SecureDelete::Open(path, _) => path,
            SecureDelete::Overwrite(path, _, _) => path,
            SecureDelete::Sync(path) => path,
            SecureDelete::Remove(path) => path,
        }
    }

    /// What follows a reply. `noise` is random.
    pub open spec fn after(self, reply: ReplyView, noise: Seq<u8>) -> Progress<
        SecureDeleteView,
        Seq<u8>,
        Seq<char>,
    > {
        let path = self.path();
        match reply {
            Reply::Meta(Err(text)) => Progress::Finished(Err(FsError::Io(text))),
            Reply::Meta(Ok((kind, len))) => Progress::Running(
                if kind == FileKind::Symlink {
                    SecureDelete::Remove(path)
                } else {
                    SecureDelete::Open(path, len)
                },
            ),
            Reply::Done(Err(text)) => Progress::Finished(Err(FsError::Io(text))),
            _ => match self {
                SecureDelete::Open(_, len) => Progress::Running(overwriting(path, len, noise)),
                SecureDelete::Overwrite(_, left, _) => Progress::Running(
                    overwriting(path, (left - piece_of(left)) as u64, noise),
                ),
                SecureDelete::Sync(_) => Progress::Running(SecureDelete::Remove(path)),
                _ => Progress::Finished(Ok(())),
            },
        }
    }
}

/// Where the deletion of `path` stands after the exchanges `done`.
pub open spec fn deletion_at(path: Seq<u8>, done: Seq<Exchange<Seq<u8>>>) -> Progress<
    SecureDeleteView,
    Seq<u8>,
    Seq<char>,
>
    decreases done.len(),
{
    if done.len() == 0 {
        Progress::Running(SecureDelete::Stat(path))
    } else {
        match deletion_at(path, done.drop_last()) {
            Progress::Running(s) => s.after(done.last().reply, done.last().drawn),
            Progress::Finished(r) => Progress::Finished(r),
        }
    }
}

/// Whether `done` are exchanges of the deletion of `path`, from its beginning
/// on.
pub open spec fn is_deletion(path: Seq<u8>, done: Seq<Exchange<Seq<u8>>>) -> bool
    decreases done.len(),
{
    done.len() > 0 ==> {
        &&& is_deletion(path, done.drop_last())
        &&& deletion_at(path, done.drop_last()) matches Progress::Running(s)
        &&& done.last().asked == s.pending()
        &&& answers(s.pending(), done.last().reply)
        &&& done.last().drawn.len() == s.noise_len()
    }
}

/// The number of bytes that were overwritten in the exchanges `done`.
pub open spec fn overwritten(done: Seq<Exchange<Seq<u8>>>) -> nat
    decreases done.len(),
{
    if done.len() == 0 {
        0
    } else {
        let before = overwritten(done.drop_last());
        match done.last().asked {
            Action::Overwrite(noise) => if succeeded(done.last().reply) {
                before + noise.len()
            } else {
                before
            },
            _ => before,
        }
    }
}

proof fn lemma_deletion(path: Seq<u8>, done: Seq<Exchange<Seq<u8>>>)
    requires
        is_deletion(path, done),
    ensures
        match deletion_at(path, done) {
            Progress::Running(SecureDelete::Stat(p)) => p == path && done.len() == 0
                && overwritten(done) == 0,
            Progress::Running(s) => {
                &&& s.path() == path
                &&& s.wf()
                &&& done.len() > 0
                &&& done[0].reply matches Reply::Meta(Ok((kind, len)))
                &&& match s {
                    SecureDelete::Open(_, n) => kind != FileKind::Symlink && n == len
                        && overwritten(done) == 0,
                    SecureDelete::Overwrite(_, left, _) => kind != FileKind::Symlink && left <= len
                        && overwritten(done) == len - left,
                    SecureDelete::Sync(_) => kind != FileKind::Symlink && overwritten(done) == len,
                    _ => overwritten(done) == if kind == FileKind::Symlink {
                        0
                    } else {
                        len as nat
                    },
                }
            },
            Progress::Finished(Ok(_)) => {
                &&& done.len() > 0
                &&& done.last().asked == ActionView::Remove(path)
                &&& succeeded(done.last().reply)
            },
            Progress::Finished(Err(_)) => true,
        },
    decreases done.len(),
{
    if done.len() > 0 {
        lemma_deletion(path, done.drop_last());
    }
}

/// A file is removed only when all of its bytes were overwritten; a symbolic
/// link is removed with nothing overwritten.
pub proof fn law_overwritten_before_removal(path: Seq<u8>, done: Seq<Exchange<Seq<u8>>>)
    requires
        is_deletion(path, done),
        deletion_at(path, done) matches Progress::Running(s) && s.pending() is Remove,
    ensures
        deletion_at(path, done)->Running_0.pending() == ActionView::Remove(path),
        done[0].reply matches Reply::Meta(Ok((kind, len))) && overwritten(done) == if kind
            == FileKind::Symlink {
            0
        } else {
            len as nat
        },
{
    lemma_deletion(path, done);
}

/// A deletion that succeeds has removed the file.
pub proof fn law_deletion_removes(path: Seq<u8>, done: Seq<Exchange<Seq<u8>>>)
    requires
        is_deletion(path, done),
        deletion_at(path, done) matches Progress::Finished(Ok(_)),
    ensures
        done.last().asked == ActionView::Remove(path),
        succeeded(done.last().reply),
{
    lemma_deletion(path, done);
}

/// A deletion in which nothing fails succeeds.
pub proof fn law_faithful_deletion_succeeds(path: Seq<u8>, done: Seq<Exchange<Seq<u8>>>)
    requires
        is_deletion(path, done),
        forall|i: int| 0 <= i < done.len() ==> !failed((#[trigger] done[i]).reply),
    ensures
        deletion_at(path, done) matches Progress::Finished(r) ==> r is Ok,
    decreases done.len(),
{
    if done.len() > 0 {
        let before = done.drop_last();
        assert forall|i: int| 0 <= i < before.len() implies !failed(
            (#[trigger] before[i]).reply,
        ) by {
            assert(before[i] == done[i]);
        }
        law_faithful_deletion_succeeds(path, before);
        assert(!failed(done[done.len() - 1].reply));
    }
}

/// A symbolic link is never opened to be overwritten: once it is known to be
/// one, all that is asked for is its removal.
pub proof fn law_symlink_is_only_removed(path: Seq<u8>, done: Seq<Exchange<Seq<u8>>>, i: int)
    requires
        is_deletion(path, done),
        done.len() > 0,
        done[0].reply matches Reply::Meta(Ok((kind, _))) && kind == FileKind::Symlink,
        1 <= i < done.len(),
    ensures
        done[i].asked == ActionView::Remove(path),
    decreases done.len(),
{
    if i < done.len() - 1 {
        law_symlink_is_only_removed(path, done.drop_last(), i);
    } else {
        lemma_deletion(path, done.drop_last());
    }
}

/// The number of pieces of 4 MiB, the last one perhaps shorter, that a file of
/// `len` bytes is overwritten in.
pub open spec fn pieces_in(len: u64) -> int {
    (len + 4194304int - 1) / (4194304int)
}

/// Whether the exchange with index `i` asks for what is due then, in the deletion
/// of a file of `len` bytes at `path`: the file is opened, every piece of it is
/// overwritten with bytes that were drawn for it, that is brought to the disk, and
/// the file is removed. Nothing follows.
pub open spec fn is_due(path: Seq<u8>, len: u64, done: Seq<Exchange<Seq<u8>>>, i: int) -> bool {
    if i == 1 {
        done[i].asked == ActionView::OpenForOverwrite(path)
    } else if i < 2 + pieces_in(len) {
        let left = len - (i - 2) * (4194304int);
        &&& done[i].asked == ActionView::Overwrite(done[i - 1].drawn)
        &&& done[i - 1].drawn.len() == if left < 4194304int {
            left
        } else {
            4194304int
        }
    } else if i == 2 + pieces_in(len) {
        done[i].asked == ActionView::SyncOverwritten
    } else {
        i == 3 + pieces_in(len) && done[i].asked == ActionView::Remove(path)
    }
}

/// Where a deletion stands, by the number of its exchanges.
proof fn lemma_course(path: Seq<u8>, done: Seq<Exchange<Seq<u8>>>)
    requires
        is_deletion(path, done),
    ensures
        match deletion_at(path, done) {
            Progress::Running(s) => {
                &&& s.path() == path
                &&& forall|i: int| 0 <= i < done.len() ==> !failed((#[trigger] done[i]).reply)
                &&& s is Stat <==> done.len() == 0
                &&& done.len() > 0 ==> (done[0].reply matches Reply::Meta(Ok((kind, len))) && match s {
                    SecureDelete::Open(_, n) => kind != FileKind::Symlink && n == len && done.len()
                        == 1,
                    SecureDelete::Overwrite(_, left, noise) => {
                        &&& kind != FileKind::Symlink
                        &&& 2 <= done.len() < 2 + pieces_in(len)
                        &&& left == len - (done.len() - 2) * (4194304int)
                        &&& noise == done.last().drawn
                        &&& noise.len() == if left < 4194304int {
                            left as int
                        } else {
                            4194304int
                        }
                    },
                    SecureDelete::Sync(_) => kind != FileKind::Symlink && done.len() == 2
                        + pieces_in(len),
                    SecureDelete::Remove(_) => done.len() == if kind == FileKind::Symlink {
                        1
                    } else {
                        3 + pieces_in(len)
                    },
                    SecureDelete::Stat(_) => false,
                })
            },
            Progress::Finished(Ok(_)) => done.len() > 0 && done.last().asked
                == ActionView::Remove(path) && !failed(done.last().reply),
            Progress::Finished(Err(e)) => {
                &&& done.len() > 0
                &&& done.last().reply matches Reply::Meta(Err(text)) ==> e == FileErrorView::Io(text)
                &&& done.last().reply matches Reply::Done(Err(text)) ==> e == FileErrorView::Io(text)
                &&& failed(done.last().reply)
            },
        },
    decreases done.len(),
{
    if done.len() > 0 {
        let before = done.drop_last();
        lemma_course(path, before);
        if let Progress::Running(_) = deletion_at(path, done) {
            assert forall|i: int| 0 <= i < done.len() implies !failed(
                (#[trigger] done[i]).reply,
            ) by {
                if i < before.len() {
                    assert(before[i] == done[i]);
                }
            }
        }
    }
}

/// A deletion does what it is for, piece by piece, and comes to its end: what it
/// asks for is fixed by its place, by what was found at the path, and by nothing
/// else. A link is removed at once; of a file of any length, every piece is
/// overwritten, and then it is removed. Nothing is asked for behind a failure.
pub proof fn law_deletion_follows_its_course(
    path: Seq<u8>,
    done: Seq<Exchange<Seq<u8>>>,
    i: int,
)
    requires
        is_deletion(path, done),
        0 <= i < done.len(),
    ensures
        i == 0 ==> done[i].asked == ActionView::Stat(path),
        i > 0 ==> !failed(done[i - 1].reply),
        i > 0 ==> (done[0].reply matches Reply::Meta(Ok((kind, len))) && if kind
            == FileKind::Symlink {
            i == 1 && done[i].asked == ActionView::Remove(path)
        } else {
            is_due(path, len, done, i)
        }),
    decreases done.len(),
{
    let before = done.drop_last();
    if i < done.len() - 1 {
        law_deletion_follows_its_course(path, before, i);
    } else {
        lemma_course(path, before);
        if i > 0 {
            assert(before[i - 1] == done[i - 1]);
            assert(before.last() == done[i - 1]);
        }
    }
}

/// A deletion ends with the first failure, which it reports, or with the removal,
/// and then it has succeeded. It ends with nothing else.
pub proof fn law_deletion_ends(path: Seq<u8>, done: Seq<Exchange<Seq<u8>>>)
    requires
        is_deletion(path, done),
    ensures
        deletion_at(path, done) is Running <==> done.len() == 0 || !failed(done.last().reply)
            && !(done.last().asked is Remove),
        deletion_at(path, done) matches Progress::Finished(r) ==> match done.last().reply {
            Reply::Meta(Err(text)) => r == Err::<(), FileErrorView>(FsError::Io(text)),
            Reply::Done(Err(text)) => r == Err::<(), FileErrorView>(FsError::Io(text)),
            _ => r is Ok,
        },
{
    lemma_course(path, done);
    if done.len() > 0 {
        lemma_course(path, done.drop_last());
    }
}

impl SecureDelete<Vec<u8>> {
    /// Begins to delete the file at `path`.
    pub fn begin(path: &[u8]) -> (op: Self)
        ensures
            op@ == SecureDelete::Stat(path@),
            op@.wf(),
    {
        SecureDelete::Stat(copied(path))
    }

    /// The action that the deletion waits for.
    pub fn action(&self) -> (act: Action<Vec<u8>, String>)
        ensures
            act@ == self@.pending(),
    {
        match self {
            SecureDelete::Stat(path) => Action::Stat(copied(path.as_slice())),
            SecureDelete::Open(path, _) => Action::OpenForOverwrite(copied(path.as_slice())),
            SecureDelete::Overwrite(_, _, noise) => Action::Overwrite(copied(noise.as_slice())),
            SecureDelete::Sync(_) => Action::SyncOverwritten,
            SecureDelete::Remove(path) => Action::Remove(copied(path.as_slice())),
        }
    }

    /// The number of random bytes that the next state needs.
    fn noise_wanted(&self) -> (n: u64)
        ensures
            n == self@.noise_len(),
    {
        match self {
            SecureDelete::Open(_, len) => next_piece(*len),
            SecureDelete::Overwrite(_, left, _) => next_piece(*left - next_piece(*left)),
            _ => 0,
        }
    }
}

/// The number of bytes to overwrite next when `left` are left.
fn next_piece(left: u64) -> (n: u64)
    ensures
        n == piece_of(left),
        n <= left,
{
    if left < OVERWRITE_PIECE {
        left
    } else {
        OVERWRITE_PIECE
    }
}

/// Goes on with a deletion after a reply, with these random bytes.
pub fn secure_delete_with(
    op: SecureDelete<Vec<u8>>,
    reply: FileReply,
    noise: Vec<u8>,
) -> (r: Progress<SecureDelete<Vec<u8>>, Vec<u8>, String>)
    requires
        op@.wf(),
        answers(op@.pending(), reply@),
        noise@.len() == op@.noise_len(),
    ensures
        progress_view(r) == op@.after(reply@, noise@),
        r matches Progress::Running(next) ==> next@.wf(),
{
    match (op, reply) {
        (_, Reply::Meta(Err(text))) => Progress::Finished(Err(FsError::Io(text))),
        (_, Reply::Done(Err(text))) => Progress::Finished(Err(FsError::Io(text))),
        (SecureDelete::Stat(path), Reply::Meta(Ok((kind, len)))) => {
            match kind {
                FileKind::Symlink => Progress::Running(SecureDelete::Remove(path)),
                _ => Progress::Running(SecureDelete::Open(path, len)),
            }
        },
        (SecureDelete::Open(path, len), _) => {
            if len == 0 {
                Progress::Running(SecureDelete::Sync(path))
            } else {
                Progress::Running(SecureDelete::Overwrite(path, len, noise))
            }
        },
        (SecureDelete::Overwrite(path, left, _), _) => {
            let left: u64 = left - next_piece(left);
            if left == 0 {
                Progress::Running(SecureDelete::Sync(path))
            } else {
                Progress::Running(SecureDelete::Overwrite(path, left, noise))
            }
        },
        (SecureDelete::Sync(path), _) => Progress::Running(SecureDelete::Remove(path)),
        (_, _) => Progress::Finished(Ok(())),
    }
}

/// Goes on with a deletion after a reply.
pub fn secure_delete(op: SecureDelete<Vec<u8>>, reply: FileReply) -> (r: Progress<
    SecureDelete<Vec<u8>>,
    Vec<u8>,
    String,
>)
    requires
        op@.wf(),
        answers(op@.pending(), reply@),
    ensures
        exists|noise: Seq<u8>|
            noise.len() == op@.noise_len() && progress_view(r) == #[trigger] op@.after(
                reply@,
                noise,
            ),
        r matches Progress::Running(next) ==> next@.wf(),
{
    let wanted: usize = op.noise_wanted() as usize;
    let mut noise: Vec<u8> = Vec::new();
    noise.resize(wanted, 0);
    fill_random(noise.as_mut_slice());
    secure_delete_with(op, reply, noise)
}

} // verus!

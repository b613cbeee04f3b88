//! The command that decrypts a file or a directory.

use vstd::prelude::*;
use vstd::utf8::encode_utf8;
use crate::bytes::copied;
use crate::cli::encrypt::{password_protects, MadeKey};
use crate::cli::password::{entered_password, read_password};
use crate::crypto::keyfile::{
    key_file_returns, law_recovery_is_unique, recovered_view, recovers,
};
use crate::crypto::primitives::wipe_text;
use crate::crypto::{recover_key_from_password, CryptoError, SecureKey};
use crate::fsops::action::{
    answers, failed, outcome_view, progress_view, say_view, succeeded, Action, ActionView, Exchange,
    FileKind, FileReply, Notice, NoticeView, Progress, Reply, ReplyView, Trouble,
};
use crate::fsops::decrypt_dir::trouble_view;
use crate::fsops::error::{FileErrorView, FsError};
use crate::fsops::stats::{trouble_says, trouble_text, EncryptionStats};
use crate::fsops::tree::{law_clean_run_has_no_failure, law_everything_is_recorded, DirectoryRun};

verus! {

/// The state of the command. `K` stands for a key.
pub enum DecryptCommand<P, T, K> {
    /// The path is looked up.
    FindPath { path: P, key_file: P },
    /// The key file is looked up.
    FindKey { path: P, key_file: P },
    /// The key file is read.
    ReadKey { path: P, key_file: P },
    /// The password is asked for.
    AskPassword { path: P, key_file: P, file: P },
    /// The password is known; the key is to be recovered.
    Recover { path: P, key_file: P, file: P, password: T },
    /// The path is looked at.
    Stat { path: P, key_file: P, key: K },
    /// The file is decrypted.
    DecryptFile { path: P, key_file: P, key: K },
    /// The payloads in the directory are counted.
    Count { path: P, key_file: P, key: K },
    /// The directory is decrypted.
    DecryptDirectory { path: P, key_file: P, key: K },
    /// The key file is deleted.
    DeleteKey { key_file: P },
}

/// [`DecryptCommand`] as contracts speak of it.
pub type DecryptCommandView = DecryptCommand<Seq<u8>, Seq<char>, Seq<u8>>;

impl View for DecryptCommand<Vec<u8>, String, SecureKey> {
    type V = DecryptCommand<Seq<u8>, Seq<char>, Seq<u8>>;

    open spec fn view(&self) -> DecryptCommand<Seq<u8>, Seq<char>, Seq<u8>> {
        match *self {
            DecryptCommand::FindPath { path, key_file } => DecryptCommand::FindPath {
                path: path@,
                key_file: key_file@,
            },
            DecryptCommand::FindKey { path, key_file } => DecryptCommand::FindKey {
                path: path@,
                key_file: key_file@,
            },
            DecryptCommand::ReadKey { path, key_file } => DecryptCommand::ReadKey {
                path: path@,
                key_file: key_file@,
            },
            DecryptCommand::AskPassword { path, key_file, file } => DecryptCommand::AskPassword {
                path: path@,
                key_file: key_file@,
                file: file@,
            },
            DecryptCommand::Recover { path, key_file, file, password } => DecryptCommand::Recover {
                path: path@,
                key_file: key_file@,
                file: file@,
                password: password@,
            },
            DecryptCommand::Stat { path, key_file, key } => DecryptCommand::Stat {
                path: path@,
                key_file: key_file@,
                key: key@,
            },
            DecryptCommand::DecryptFile { path, key_file, key } => DecryptCommand::DecryptFile {
                path: path@,
                key_file: key_file@,
                key: key@,
            },
            DecryptCommand::Count { path, key_file, key } => DecryptCommand::Count {
                path: path@,
                key_file: key_file@,
                key: key@,
            },
            DecryptCommand::DecryptDirectory { path, key_file, key } => {
                DecryptCommand::DecryptDirectory { path: path@, key_file: key_file@, key: key@ }
            },
            DecryptCommand::DeleteKey { key_file } => DecryptCommand::DeleteKey {
                key_file: key_file@,
            },
        }
    }
}

/// What follows a reply: where the command stands, what is shown before, and
/// what is to be recorded.
pub struct CommandTurn<S, P, T> {
    /// Where the command stands.
    pub next: Progress<S, P, T>,
    /// What is shown.
    pub say: Option<Notice<P, T>>,
    /// What went wrong.
    pub trouble: Option<Trouble<P, T>>,
    /// Whether a payload was restored.
    pub restored: bool,
    /// How many payloads there are, if that was found out.
    pub total: Option<usize>,
}

/// [`CommandTurn`] as contracts speak of it.
pub type CommandTurnView = CommandTurn<DecryptCommandView, Seq<u8>, Seq<char>>;

/// [`CommandTurn`] in a running program.
pub type DecryptCommandTurn = CommandTurn<
    DecryptCommand<Vec<u8>, String, SecureKey>,
    Vec<u8>,
    String,
>;

impl View for CommandTurn<DecryptCommand<Vec<u8>, String, SecureKey>, Vec<u8>, String> {
    type V = CommandTurn<DecryptCommandView, Seq<u8>, Seq<char>>;

    open spec fn view(&self) -> CommandTurn<DecryptCommandView, Seq<u8>, Seq<char>> {
        CommandTurn {
            next: progress_view(self.next),
            say: say_view(self.say),
            trouble: trouble_view(self.trouble),
            restored: self.restored,
            total: self.total,
        }
    }
}

/// The command goes on with `s`, and nothing else happens.
pub open spec fn command_proceeds(s: DecryptCommandView) -> CommandTurnView {
    CommandTurn {
        next: Progress::Running(s),
        say: None,
        trouble: None,
        restored: false,
        total: None,
    }
}

/// The command ends with `r`, and nothing else happens.
pub open spec fn command_stops(r: Result<(), FileErrorView>) -> CommandTurnView {
    CommandTurn {
        next: Progress::Finished(r),
        say: None,
        trouble: None,
        restored: false,
        total: None,
    }
}

/// What follows when everything was tried: the key file is deleted where nothing
/// went wrong, and kept otherwise.
pub open spec fn concluding(key_file: Seq<u8>, clean: bool) -> CommandTurnView {
    if clean {
        CommandTurn {
            say: Some(Notice::AllSuccessful),
            ..command_proceeds(DecryptCommand::DeleteKey { key_file })
        }
    } else {
        CommandTurn { say: Some(Notice::KeyKept), ..command_stops(Ok(())) }
    }
}

/// What follows when the key was recovered, or was not.
pub open spec fn recovering(
    path: Seq<u8>,
    key_file: Seq<u8>,
    recovered: Result<Seq<u8>, CryptoError>,
) -> CommandTurnView {
    match recovered {
        Ok(key) => CommandTurn {
            say: Some(Notice::PasswordCorrect),
            ..command_proceeds(DecryptCommand::Stat { path, key_file, key })
        },
        Err(e) => command_stops(Err(FsError::Crypto(e))),
    }
}

impl DecryptCommand<Seq<u8>, Seq<char>, Seq<u8>> {
    /// The action that the command waits for.
    pub open spec fn pending(self) -> ActionView {
        match self {
            DecryptCommand::FindPath { path, .. } => Action::CheckExists(path),
            DecryptCommand::FindKey { key_file, .. } => Action::CheckExists(key_file),
            DecryptCommand::ReadKey { key_file, .. } => Action::ReadFile(key_file),
            DecryptCommand::AskPassword { .. } => Action::AskPassword("Enter password: "@),
            DecryptCommand::Recover { .. } => arbitrary(),
            DecryptCommand::Stat { path, .. } => Action::Stat(path),
            DecryptCommand::DecryptFile { path, .. } => Action::DecryptFile(path),
            DecryptCommand::Count { path, .. } => Action::CountPayloads(path),
            DecryptCommand::DecryptDirectory { path, .. } => Action::DecryptDirectory(path, 0),
            DecryptCommand::DeleteKey { key_file } => Action::SecureDelete(key_file),
        }
    }

    /// Whether the cipher returns when given what was read from the key file.
    pub open spec fn wf(self) -> bool {
        match self {
            DecryptCommand::AskPassword { file, .. } => key_file_returns(file),
            DecryptCommand::Recover { file, .. } => key_file_returns(file),
            _ => true,
        }
    }

    /// What follows a reply. `clean` says that nothing was recorded as gone
    /// wrong before.
    pub open spec fn after(self, reply: ReplyView, clean: bool) -> CommandTurnView {
        match (self, reply) {
            (DecryptCommand::FindPath { path, key_file }, Reply::Answer(found)) => if found {
                command_proceeds(DecryptCommand::FindKey { path, key_file })
            } else {
                command_stops(Err(FsError::TargetOrKeyMissing))
            },
            (DecryptCommand::FindKey { path, key_file }, Reply::Answer(found)) => if found {
                command_proceeds(DecryptCommand::ReadKey { path, key_file })
            } else {
                command_stops(Err(FsError::TargetOrKeyMissing))
            },
            (DecryptCommand::ReadKey { path, key_file }, Reply::Bytes(Ok(file))) => {
                command_proceeds(DecryptCommand::AskPassword { path, key_file, file })
            },
            (
                DecryptCommand::AskPassword { path, key_file, file },
                Reply::Password(entered),
            ) => match entered_password(entered) {
                Ok(password) => command_proceeds(
                    DecryptCommand::Recover { path, key_file, file, password },
                ),
                Err(e) => command_stops(Err(e)),
            },
            (DecryptCommand::Stat { path, key_file, key }, Reply::Meta(Ok((kind, _)))) => {
                match kind {
                    FileKind::File => CommandTurn {
                        total: Some(1),
                        ..command_proceeds(DecryptCommand::DecryptFile { path, key_file, key })
                    },
                    FileKind::Directory => command_proceeds(
                        DecryptCommand::Count { path, key_file, key },
                    ),
                    _ => command_stops(Err(FsError::UnsupportedTarget)),
                }
            },
            (DecryptCommand::DecryptFile { key_file, .. }, Reply::Outcome(Ok(_))) => CommandTurn {
                restored: true,
                ..concluding(key_file, clean)
            },
            (DecryptCommand::DecryptFile { path, key_file, .. }, Reply::Outcome(Err(e))) => {
                CommandTurn {
                    trouble: Some(Trouble::File(path, e)),
                    ..concluding(key_file, false)
                }
            },
            (DecryptCommand::Count { path, key_file, key }, Reply::Count(n)) => CommandTurn {
                total: Some(n),
                ..command_proceeds(DecryptCommand::DecryptDirectory { path, key_file, key })
            },
            (DecryptCommand::DecryptDirectory { key_file, .. }, Reply::Outcome(Ok(_))) => {
                concluding(key_file, clean)
            },
            (DecryptCommand::DeleteKey { .. }, Reply::Outcome(Ok(_))) => CommandTurn {
                say: Some(Notice::KeyDeleted),
                ..command_stops(Ok(()))
            },
            (_, Reply::Outcome(Err(e))) => command_stops(Err(e)),
            (_, Reply::Bytes(Err(text))) => command_stops(Err(FsError::Io(text))),
            (_, Reply::Meta(Err(text))) => command_stops(Err(FsError::Io(text))),
            _ => arbitrary(),
        }
    }

    /// [`Self::after`], and the recovery of the key where that follows.
    pub open spec fn after_recovering(
        self,
        reply: ReplyView,
        clean: bool,
        recovered: Result<Seq<u8>, CryptoError>,
    ) -> CommandTurnView {
        let turn = self.after(reply, clean);
        match turn.next {
            Progress::Running(DecryptCommand::Recover { path, key_file, .. }) => recovering(
                path,
                key_file,
                recovered,
            ),
            _ => turn,
        }
    }

    /// Whether `recovered` can come of recovering the key with the password that
    /// was entered.
    pub open spec fn can_recover(
        self,
        reply: ReplyView,
        clean: bool,
        recovered: Result<Seq<u8>, CryptoError>,
    ) -> bool {
        self.after(reply, clean).next matches Progress::Running(
            DecryptCommand::Recover { file, password, .. },
        ) ==> recovers(file, encode_utf8(password), recovered)
    }
}

/// What is found out on the way: whether nothing went wrong so far, and what
/// came of recovering the key.
pub ghost struct DecryptFinding {
    /// Whether nothing was recorded as gone wrong.
    pub clean: bool,
    /// What came of recovering the key.
    pub recovered: Result<Seq<u8>, CryptoError>,
}

/// Where the command stands for `path` and `key_file` after the exchanges `done`.
pub open spec fn decrypt_command_at(
    path: Seq<u8>,
    key_file: Seq<u8>,
    done: Seq<Exchange<DecryptFinding>>,
) -> Progress<DecryptCommandView, Seq<u8>, Seq<char>>
    decreases done.len(),
{
    if done.len() == 0 {
        Progress::Running(DecryptCommand::FindPath { path, key_file })
    } else {
        match decrypt_command_at(path, key_file, done.drop_last()) {
            Progress::Running(s) => s.after_recovering(
                done.last().reply,
                done.last().drawn.clean,
                done.last().drawn.recovered,
            ).next,
            Progress::Finished(r) => Progress::Finished(r),
        }
    }
}

/// Whether `done` are exchanges of the command for `path` and `key_file`, from
/// its beginning on.
pub open spec fn is_decrypt_command(
    path: Seq<u8>,
    key_file: Seq<u8>,
    done: Seq<Exchange<DecryptFinding>>,
) -> bool
    decreases done.len(),
{
    done.len() > 0 ==> {
        let last = done.last();
        &&& is_decrypt_command(path, key_file, done.drop_last())
        &&& decrypt_command_at(path, key_file, done.drop_last()) matches Progress::Running(s)
        &&& last.asked == s.pending()
        &&& answers(s.pending(), last.reply)
        &&& s.can_recover(last.reply, last.drawn.clean, last.drawn.recovered)
    }
}

/// Whether the first exchanges of `done` have found both files, read the key
/// file, and recovered `key` from it with the password that was entered.
pub open spec fn key_is_recovered(
    path: Seq<u8>,
    key_file: Seq<u8>,
    done: Seq<Exchange<DecryptFinding>>,
    key: Seq<u8>,
) -> bool {
    &&& done.len() >= 4
    &&& done[0].asked == ActionView::CheckExists(path)
    &&& done[1].asked == ActionView::CheckExists(key_file)
    &&& done[2].asked == ActionView::ReadFile(key_file)
    &&& done[3].asked is AskPassword
    &&& done[2].reply matches Reply::Bytes(Ok(file))
    &&& done[3].reply matches Reply::Password(Ok(password))
    &&& recovers(file, encode_utf8(password), Ok(key))
}

/// What has happened before the state that the exchanges `done` lead to.
spec fn decrypt_command_holds(
    path: Seq<u8>,
    key_file: Seq<u8>,
    done: Seq<Exchange<DecryptFinding>>,
) -> bool {
    match decrypt_command_at(path, key_file, done) {
        Progress::Running(DecryptCommand::FindPath { path: p, key_file: k }) => p == path && k
            == key_file && done.len() == 0,
        Progress::Running(DecryptCommand::FindKey { path: p, key_file: k }) => p == path && k
            == key_file && done.len() == 1 && done[0].asked == ActionView::CheckExists(path),
        Progress::Running(DecryptCommand::ReadKey { path: p, key_file: k }) => p == path && k
            == key_file && done.len() == 2 && done[0].asked == ActionView::CheckExists(path)
            && done[1].asked == ActionView::CheckExists(key_file),
        Progress::Running(DecryptCommand::AskPassword { path: p, key_file: k, file }) => p == path
            && k == key_file && done.len() == 3 && done[0].asked == ActionView::CheckExists(path)
            && done[1].asked == ActionView::CheckExists(key_file) && done[2].asked
            == ActionView::ReadFile(key_file) && done[2].reply == ReplyView::Bytes(Ok(file)),
        Progress::Running(DecryptCommand::Recover { .. }) => false,
        Progress::Running(DecryptCommand::Stat { path: p, key_file: k, key }) => p == path && k
            == key_file && done.len() == 4 && key_is_recovered(path, key_file, done, key),
        Progress::Running(DecryptCommand::DecryptFile { path: p, key_file: k, key }) => p == path
            && k == key_file && key_is_recovered(path, key_file, done, key),
        Progress::Running(DecryptCommand::Count { path: p, key_file: k, key }) => p == path && k
            == key_file && key_is_recovered(path, key_file, done, key),
        Progress::Running(DecryptCommand::DecryptDirectory { path: p, key_file: k, key }) => p
            == path && k == key_file && key_is_recovered(path, key_file, done, key),
        Progress::Running(DecryptCommand::DeleteKey { key_file: k }) => {
            &&& k == key_file
            &&& done.len() > 4
            &&& done.last().asked == ActionView::DecryptFile(path) || done.last().asked
                == ActionView::DecryptDirectory(path, 0)
            &&& succeeded(done.last().reply)
            &&& done.last().drawn.clean
        },
        Progress::Finished(_) => true,
    }
}

proof fn lemma_decrypt_command(
    path: Seq<u8>,
    key_file: Seq<u8>,
    done: Seq<Exchange<DecryptFinding>>,
)
    requires
        is_decrypt_command(path, key_file, done),
    ensures
        decrypt_command_holds(path, key_file, done),
    decreases done.len(),
{
    if done.len() > 0 {
        let before = done.drop_last();
        lemma_decrypt_command(path, key_file, before);
        match decrypt_command_at(path, key_file, before)->Running_0 {
            DecryptCommand::FindPath { .. } => {
                assert(decrypt_command_holds(path, key_file, done));
            },
            DecryptCommand::FindKey { .. } => {
                assert(decrypt_command_holds(path, key_file, done));
            },
            DecryptCommand::ReadKey { .. } => {
                assert(decrypt_command_holds(path, key_file, done));
            },
            DecryptCommand::AskPassword { .. } => {
                assert(decrypt_command_holds(path, key_file, done));
            },
            DecryptCommand::Stat { key, .. } => {
                assert(key_is_recovered(path, key_file, done, key));
                assert(decrypt_command_holds(path, key_file, done));
            },
            DecryptCommand::DecryptFile { key, .. } => {
                assert(decrypt_command_holds(path, key_file, done));
            },
            DecryptCommand::Count { key, .. } => {
                assert(key_is_recovered(path, key_file, done, key));
                assert(decrypt_command_holds(path, key_file, done));
            },
            _ => {
                assert(decrypt_command_holds(path, key_file, done));
            },
        }
    }
}

/// Whether the last of the exchanges `done` decrypted a directory in `run`, under
/// `key`, and told the command what came of it: that it ended as `run` did, and
/// whether anything was recorded, where nothing was before.
pub open spec fn ended_with(
    done: Seq<Exchange<DecryptFinding>>,
    run: DirectoryRun,
    key: Seq<u8>,
    before: EncryptionStats,
    after: EncryptionStats,
) -> bool {
    &&& run.is_run(key)
    &&& done.last().asked == ActionView::DecryptDirectory(run.path, run.depth)
    &&& done.last().reply == ReplyView::Outcome(run.outcome(key))
    &&& before.errors@.len() == 0
    &&& run.recorded(key, before, after)
    &&& done.last().drawn.clean == (after.errors@.len() == 0)
}

/// The key file is deleted only when nothing failed: the file was decrypted, or
/// the directory was, and nothing that was asked for on the way failed, down to
/// the last directory.
pub proof fn law_key_deleted_only_when_clean(
    path: Seq<u8>,
    key_file: Seq<u8>,
    done: Seq<Exchange<DecryptFinding>>,
    run: DirectoryRun,
    key: Seq<u8>,
    before: EncryptionStats,
    after: EncryptionStats,
)
    requires
        is_decrypt_command(path, key_file, done),
        decrypt_command_at(path, key_file, done) matches Progress::Running(s) && s.pending()
            is SecureDelete,
        done.last().asked is DecryptDirectory ==> ended_with(done, run, key, before, after),
    ensures
        decrypt_command_at(path, key_file, done)->Running_0.pending() == ActionView::SecureDelete(
            key_file,
        ),
        succeeded(done.last().reply),
        done.last().drawn.clean,
        done.last().asked == ActionView::DecryptFile(path) || (done.last().asked
            == ActionView::DecryptDirectory(path, 0) && run.nothing_failed()),
{
    lemma_decrypt_command(path, key_file, done);
    if done.last().asked is DecryptDirectory {
        law_everything_is_recorded(run, key, before, after);
        law_clean_run_has_no_failure(run, key);
    }
}

/// Whether, in the exchanges `done`, what stands at the path was found to be a
/// file or a directory, the key was recovered, and nothing failed or was recorded
/// as gone wrong.
pub open spec fn goes_well(done: Seq<Exchange<DecryptFinding>>) -> bool {
    &&& done.len() > 0 ==> done[0].reply == ReplyView::Answer(true)
    &&& done.len() > 1 ==> done[1].reply == ReplyView::Answer(true)
    &&& done.len() > 3 ==> (done[3].reply matches Reply::Password(Ok(password)) && password.len()
        > 0) && done[3].drawn.recovered is Ok
    &&& done.len() > 4 ==> (done[4].reply matches Reply::Meta(Ok((kind, _))) && (kind
        == FileKind::File || kind == FileKind::Directory))
    &&& forall|i: int|
        0 <= i < done.len() ==> !failed((#[trigger] done[i]).reply) && done[i].drawn.clean
}

/// A command in which everything goes well succeeds, and deletes the key file at
/// its end.
pub proof fn law_faithful_decrypt_command_succeeds(
    path: Seq<u8>,
    key_file: Seq<u8>,
    done: Seq<Exchange<DecryptFinding>>,
)
    requires
        is_decrypt_command(path, key_file, done),
        goes_well(done),
    ensures
        decrypt_command_at(path, key_file, done) matches Progress::Finished(r) ==> r is Ok
            && done.len() > 0 && done.last().asked == ActionView::SecureDelete(key_file)
            && succeeded(done.last().reply),
    decreases done.len(),
{
    if done.len() > 0 {
        let before = done.drop_last();
        assert forall|i: int| 0 <= i < before.len() implies !failed((#[trigger] before[i]).reply)
            && before[i].drawn.clean by {
            assert(before[i] == done[i]);
        }
        law_faithful_decrypt_command_succeeds(path, key_file, before);
        lemma_decrypt_command(path, key_file, before);
        let last = done[done.len() - 1];
        assert(!failed(last.reply) && last.drawn.clean);
    }
}

/// Whether the command asks for `action` next.
pub open spec fn asks(
    next: Progress<DecryptCommandView, Seq<u8>, Seq<char>>,
    action: ActionView,
) -> bool {
    next matches Progress::Running(s) && s.pending() == action
}

/// Whether the command ends with `error`.
pub open spec fn ends_with(
    next: Progress<DecryptCommandView, Seq<u8>, Seq<char>>,
    error: FileErrorView,
) -> bool {
    next matches Progress::Finished(r) && r == Err::<(), FileErrorView>(error)
}

/// What the command asks for follows from the answers to what it has asked for
/// before: it looks for both files, reads the key file, asks for the password,
/// looks at the path, and asks for the decryption of what it finds there. What
/// stands there decides that alone: a file is decrypted as a file, and the payloads
/// of a directory are counted before it is decrypted, whatever their size. The key
/// file is deleted when that succeeded and nothing was recorded as gone wrong, and
/// only then.
pub proof fn law_decrypt_command_follows_its_course(
    path: Seq<u8>,
    key_file: Seq<u8>,
    done: Seq<Exchange<DecryptFinding>>,
)
    requires
        is_decrypt_command(path, key_file, done),
    ensures
        ({
            let next = decrypt_command_at(path, key_file, done);
            let n = done.len();
            if n == 0 {
                asks(next, Action::CheckExists(path))
            } else {
                let last = done.last();
                match (last.asked, last.reply) {
                    (Action::CheckExists(_), Reply::Answer(found)) => if !found {
                        ends_with(next, FsError::TargetOrKeyMissing)
                    } else if n == 1 {
                        asks(next, Action::CheckExists(key_file))
                    } else {
                        asks(next, Action::ReadFile(key_file))
                    },
                    (Action::ReadFile(_), Reply::Bytes(r)) => match r {
                        Ok(_) => asks(next, Action::AskPassword("Enter password: "@)),
                        Err(text) => ends_with(next, FsError::Io(text)),
                    },
                    (Action::AskPassword(_), Reply::Password(r)) => match r {
                        Ok(password) => if password.len() == 0 {
                            ends_with(next, FsError::PasswordEmpty)
                        } else {
                            match last.drawn.recovered {
                                Ok(_) => asks(next, Action::Stat(path)),
                                Err(e) => ends_with(next, FsError::Crypto(e)),
                            }
                        },
                        Err(text) => ends_with(next, FsError::Io(text)),
                    },
                    (Action::Stat(_), Reply::Meta(r)) => match r {
                        Ok((FileKind::File, _)) => asks(next, Action::DecryptFile(path)),
                        Ok((FileKind::Directory, _)) => asks(next, Action::CountPayloads(path)),
                        Ok(_) => ends_with(next, FsError::UnsupportedTarget),
                        Err(text) => ends_with(next, FsError::Io(text)),
                    },
                    (Action::CountPayloads(_), Reply::Count(_)) => asks(
                        next,
                        Action::DecryptDirectory(path, 0),
                    ),
                    (Action::DecryptFile(_), Reply::Outcome(r)) => if r is Ok && last.drawn.clean {
                        asks(next, Action::SecureDelete(key_file))
                    } else {
                        next matches Progress::Finished(Ok(_))
                    },
                    (Action::DecryptDirectory(_, _), Reply::Outcome(r)) => match r {
                        Ok(_) => if last.drawn.clean {
                            asks(next, Action::SecureDelete(key_file))
                        } else {
                            next matches Progress::Finished(Ok(_))
                        },
                        Err(e) => ends_with(next, e),
                    },
                    (Action::SecureDelete(_), Reply::Outcome(r)) => match r {
                        Ok(_) => next matches Progress::Finished(Ok(_)),
                        Err(e) => ends_with(next, e),
                    },
                    _ => false,
                }
            }
        }),
{
    if done.len() > 0 {
        lemma_decrypt_command(path, key_file, done.drop_last());
    }
}

/// What stands at the path decides how it is decrypted, and nothing else does:
/// behind a look that found a file of any size, that file is decrypted, and behind
/// one that found a directory, its payloads are counted and it is decrypted.
pub proof fn law_kind_decides_decryption(
    path: Seq<u8>,
    key_file: Seq<u8>,
    done: Seq<Exchange<DecryptFinding>>,
    i: int,
)
    requires
        is_decrypt_command(path, key_file, done),
        0 <= i < done.len() - 1,
    ensures
        (done[i].asked is Stat) && (done[i].reply matches Reply::Meta(Ok((FileKind::File, _))))
            ==> done[i + 1].asked == ActionView::DecryptFile(path),
        (done[i].asked is Stat) && (done[i].reply matches Reply::Meta(
            Ok((FileKind::Directory, _)),
        )) ==> done[i + 1].asked == ActionView::CountPayloads(path),
        done[i].asked is CountPayloads ==> done[i + 1].asked == ActionView::DecryptDirectory(
            path,
            0,
        ),
        done[i + 1].asked is DecryptFile || done[i + 1].asked is CountPayloads ==> done[i].asked
            == ActionView::Stat(path),
        done[i + 1].asked is DecryptDirectory ==> done[i].asked == ActionView::CountPayloads(path),
    decreases done.len(),
{
    if i + 1 < done.len() - 1 {
        law_kind_decides_decryption(path, key_file, done.drop_last(), i);
    } else {
        let before = done.drop_last();
        law_decrypt_command_follows_its_course(path, key_file, before);
        reveal_with_fuel(is_decrypt_command, 3);
        reveal_with_fuel(decrypt_command_at, 3);
        lemma_decrypt_command(path, key_file, before.drop_last());
        assert(before.last() == done[i]);
    }
}

/// What the command records says what has happened: how many payloads there are,
/// one restored payload for a file that was decrypted, one line for a file that
/// was not, and nothing else.
pub proof fn law_command_records_what_happened(
    s: DecryptCommandView,
    reply: ReplyView,
    clean: bool,
    recovered: Result<Seq<u8>, CryptoError>,
)
    requires
        !(s is Recover),
        answers(s.pending(), reply),
    ensures
        ({
            let turn = s.after_recovering(reply, clean, recovered);
            &&& turn.restored <==> (s.pending() is DecryptFile && reply matches Reply::Outcome(
                Ok(_),
            ))
            &&& match (s.pending(), reply) {
                (Action::DecryptFile(path), Reply::Outcome(Err(e))) => turn.trouble == Some(
                    Trouble::<Seq<u8>, Seq<char>>::File(path, e),
                ),
                _ => turn.trouble is None,
            }
            &&& match (s.pending(), reply) {
                (Action::CountPayloads(_), Reply::Count(n)) => turn.total == Some(n),
                (Action::Stat(_), Reply::Meta(Ok((FileKind::File, _)))) => turn.total == Some(
                    1usize,
                ),
                _ => turn.total is None,
            }
        }),
{
}

/// Nothing is decrypted before the master key was recovered from the key file
/// with the password that was entered: a wrong password changes nothing.
pub proof fn law_recovered_first(
    path: Seq<u8>,
    key_file: Seq<u8>,
    done: Seq<Exchange<DecryptFinding>>,
)
    requires
        is_decrypt_command(path, key_file, done),
    ensures
        match decrypt_command_at(path, key_file, done) {
            Progress::Running(DecryptCommand::DecryptFile { path: p, key, .. }) => p == path
                && key_is_recovered(path, key_file, done, key),
            Progress::Running(DecryptCommand::DecryptDirectory { path: p, key, .. }) => p == path
                && key_is_recovered(path, key_file, done, key),
            Progress::Running(s) => !(s.pending() is DecryptFile) && !(s.pending()
                is DecryptDirectory),
            Progress::Finished(_) => true,
        },
{
    lemma_decrypt_command(path, key_file, done);
}

/// The two commands agree on the key: the key file that was written by an
/// encrypt command, opened with the password that was entered for it, gives the
/// decrypt command the key that the encrypt command used.
pub proof fn law_commands_share_the_key(
    encrypted: Seq<Exchange<MadeKey>>,
    i: int,
    used: Seq<u8>,
    file: Seq<u8>,
    path: Seq<u8>,
    key_file: Seq<u8>,
    done: Seq<Exchange<DecryptFinding>>,
    recovered: Seq<u8>,
)
    requires
        password_protects(encrypted, i, used, file),
        key_is_recovered(path, key_file, done, recovered),
        done[2].reply == ReplyView::Bytes(Ok(file)),
        done[3].reply == encrypted[i].reply,
    ensures
        recovered == used,
{
    let password = encode_utf8(encrypted[i].reply->Password_0->Ok_0);
    law_recovery_is_unique(file, password, used, Ok(recovered));
}

/// Whether the cipher returns when given the key file in `reply`.
pub open spec fn can_be_recovered(reply: ReplyView) -> bool {
    reply matches Reply::Bytes(Ok(file)) ==> key_file_returns(file)
}

/// Whether `after` is `before` with what `turn` says recorded.
pub open spec fn command_records(
    before: EncryptionStats,
    after: EncryptionStats,
    turn: CommandTurnView,
) -> bool {
    &&& after.total == match turn.total {
        Some(n) => n,
        None => before.total,
    }
    &&& after.success == before.success + if turn.restored {
        1int
    } else {
        0
    }
    &&& match turn.trouble {
        None => after.errors@ == before.errors@,
        Some(trouble) => {
            &&& after.errors@.len() == before.errors@.len() + 1
            &&& after.errors@.drop_last() == before.errors@
            &&& trouble_says(trouble, after.errors@.last()@)
        },
    }
}

impl DecryptCommand<Vec<u8>, String, SecureKey> {
    /// Begins to decrypt what stands at `path` with the key file at `key_file`.
    pub fn begin(path: &[u8], key_file: &[u8]) -> (op: Self)
        ensures
            op@ == (DecryptCommandView::FindPath { path: path@, key_file: key_file@ }),
            op@.wf(),
            !(op is Recover),
    {
        DecryptCommand::FindPath { path: copied(path), key_file: copied(key_file) }
    }

    /// The action that the command waits for.
    pub fn action(&self) -> (act: Action<Vec<u8>, String>)
        requires
            !(self is Recover),
        ensures
            act@ == self@.pending(),
    {
        match self {
            DecryptCommand::FindPath { path, .. } => Action::CheckExists(copied(path.as_slice())),
            DecryptCommand::FindKey { key_file, .. } => {
                Action::CheckExists(copied(key_file.as_slice()))
            },
            DecryptCommand::ReadKey { key_file, .. } => {
                Action::ReadFile(copied(key_file.as_slice()))
            },
            DecryptCommand::AskPassword { .. } => {
                Action::AskPassword("Enter password: ".to_owned())
            },
            DecryptCommand::Recover { path, .. } => Action::CheckExists(copied(path.as_slice())),
            DecryptCommand::Stat { path, .. } => Action::Stat(copied(path.as_slice())),
            DecryptCommand::DecryptFile { path, .. } => {
                Action::DecryptFile(copied(path.as_slice()))
            },
            DecryptCommand::Count { path, .. } => Action::CountPayloads(copied(path.as_slice())),
            DecryptCommand::DecryptDirectory { path, .. } => {
                Action::DecryptDirectory(copied(path.as_slice()), 0)
            },
            DecryptCommand::DeleteKey { key_file } => {
                Action::SecureDelete(copied(key_file.as_slice()))
            },
        }
    }

    /// The key that is decrypted under.
    pub open spec fn key_bytes(self) -> Option<Seq<u8>> {
        match self@ {
            DecryptCommand::DecryptFile { key, .. } => Some(key),
            DecryptCommand::DecryptDirectory { key, .. } => Some(key),
            _ => None,
        }
    }

    /// The key to decrypt under, where something is to be decrypted.
    pub fn key(&self) -> (key: Option<&SecureKey>)
        ensures
            match key {
                Some(k) => self.key_bytes() == Some(k@),
                None => self.key_bytes() is None,
            },
    {
        match self {
            DecryptCommand::DecryptFile { key, .. } => Some(key),
            DecryptCommand::DecryptDirectory { key, .. } => Some(key),
            _ => None,
        }
    }
}

/// The command goes on with `s`, and nothing else happens.
fn go_on(s: DecryptCommand<Vec<u8>, String, SecureKey>) -> (turn: DecryptCommandTurn)
    ensures
        turn@ == command_proceeds(s@),
        turn.next == Progress::<_, Vec<u8>, String>::Running(s),
{
    CommandTurn {
        next: Progress::Running(s),
        say: None,
        trouble: None,
        restored: false,
        total: None,
    }
}

/// The command ends with `r`, and nothing else happens.
fn end(r: Result<(), FsError<Vec<u8>, String>>) -> (turn: DecryptCommandTurn)
    ensures
        turn@ == command_stops(outcome_view(r)),
        turn.next is Finished,
{
    CommandTurn {
        next: Progress::Finished(r),
        say: None,
        trouble: None,
        restored: false,
        total: None,
    }
}

/// Deletes the key file where nothing went wrong, and keeps it otherwise.
pub fn conclude(key_file: Vec<u8>, clean: bool) -> (turn: DecryptCommandTurn)
    ensures
        turn@ == concluding(key_file@, clean),
        turn.next matches Progress::Running(next) ==> next@.wf(),
{
    if clean {
        let turn = go_on(DecryptCommand::DeleteKey { key_file });
        CommandTurn {
            next: turn.next,
            say: Some(Notice::AllSuccessful),
            trouble: None,
            restored: false,
            total: None,
        }
    } else {
        let turn = end(Ok(()));
        CommandTurn {
            next: turn.next,
            say: Some(Notice::KeyKept),
            trouble: None,
            restored: false,
            total: None,
        }
    }
}

/// Goes on with the command after a reply, up to the recovery of the key, without
/// recording anything.
pub fn decrypt_command_turn(
    op: DecryptCommand<Vec<u8>, String, SecureKey>,
    reply: FileReply,
    clean: bool,
) -> (turn: DecryptCommandTurn)
    requires
        op@.wf(),
        !(op is Recover),
        answers(op@.pending(), reply@),
        can_be_recovered(reply@),
    ensures
        turn@ == op@.after(reply@, clean),
        turn.next matches Progress::Running(next) ==> next@.wf(),
{
    match (op, reply) {
        (DecryptCommand::FindPath { path, key_file }, Reply::Answer(found)) => {
            if found {
                go_on(DecryptCommand::FindKey { path, key_file })
            } else {
                end(Err(FsError::TargetOrKeyMissing))
            }
        },
        (DecryptCommand::FindKey { path, key_file }, Reply::Answer(found)) => {
            if found {
                go_on(DecryptCommand::ReadKey { path, key_file })
            } else {
                end(Err(FsError::TargetOrKeyMissing))
            }
        },
        (DecryptCommand::ReadKey { path, key_file }, Reply::Bytes(Ok(file))) => {
            go_on(DecryptCommand::AskPassword { path, key_file, file })
        },
        (DecryptCommand::AskPassword { path, key_file, file }, Reply::Password(entered)) => {
            match read_password(entered) {
                Ok(password) => go_on(DecryptCommand::Recover { path, key_file, file, password }),
                Err(e) => end(Err(e)),
            }
        },
        (DecryptCommand::Stat { path, key_file, key }, Reply::Meta(Ok((kind, _)))) => {
            match kind {
                FileKind::File => {
                    let turn = go_on(DecryptCommand::DecryptFile { path, key_file, key });
                    CommandTurn {
                        next: turn.next,
                        say: None,
                        trouble: None,
                        restored: false,
                        total: Some(1),
                    }
                },
                FileKind::Directory => go_on(DecryptCommand::Count { path, key_file, key }),
                _ => end(Err(FsError::UnsupportedTarget)),
            }
        },
        (DecryptCommand::DecryptFile { path, key_file, key: _ }, Reply::Outcome(outcome)) => {
            match outcome {
                Ok(_) => {
                    let turn = conclude(key_file, clean);
                    CommandTurn {
                        next: turn.next,
                        say: turn.say,
                        trouble: None,
                        restored: true,
                        total: None,
                    }
                },
                Err(e) => {
                    let turn = conclude(key_file, false);
                    CommandTurn {
                        next: turn.next,
                        say: turn.say,
                        trouble: Some(Trouble::File(path, e)),
                        restored: false,
                        total: None,
                    }
                },
            }
        },
        (DecryptCommand::Count { path, key_file, key }, Reply::Count(n)) => {
            let turn = go_on(DecryptCommand::DecryptDirectory { path, key_file, key });
            CommandTurn {
                next: turn.next,
                say: None,
                trouble: None,
                restored: false,
                total: Some(n),
            }
        },
        (
            DecryptCommand::DecryptDirectory { path: _, key_file, key: _ },
            Reply::Outcome(Ok(_)),
        ) => conclude(key_file, clean),
        (DecryptCommand::DeleteKey { key_file: _ }, Reply::Outcome(Ok(_))) => {
            let turn = end(Ok(()));
            CommandTurn {
                next: turn.next,
                say: Some(Notice::KeyDeleted),
                trouble: None,
                restored: false,
                total: None,
            }
        },
        (_, Reply::Outcome(Err(e))) => end(Err(e)),
        (_, Reply::Bytes(Err(text))) => end(Err(FsError::Io(text))),
        (_, Reply::Meta(Err(text))) => end(Err(FsError::Io(text))),
        (_, _) => end(Ok(())),
    }
}

/// Goes on with the command when the key was recovered, or was not.
pub fn accept_key(
    path: Vec<u8>,
    key_file: Vec<u8>,
    recovered: Result<SecureKey, CryptoError>,
) -> (turn: DecryptCommandTurn)
    ensures
        turn@ == recovering(path@, key_file@, recovered_view(recovered)),
        turn.next matches Progress::Running(next) ==> next@.wf() && !(next is Recover),
{
    match recovered {
        Ok(key) => {
            let turn = go_on(DecryptCommand::Stat { path, key_file, key });
            CommandTurn {
                next: turn.next,
                say: Some(Notice::PasswordCorrect),
                trouble: None,
                restored: false,
                total: None,
            }
        },
        Err(e) => end(Err(FsError::Crypto(e))),
    }
}

/// Records what a turn says.
fn record_turn(stats: &mut EncryptionStats, turn: DecryptCommandTurn) -> (r: (
    Progress<DecryptCommand<Vec<u8>, String, SecureKey>, Vec<u8>, String>,
    Option<Notice<Vec<u8>, String>>,
))
    requires
        old(stats).success < usize::MAX,
    ensures
        command_records(*old(stats), *final(stats), turn@),
        r.0 == turn.next,
        r.1 == turn.say,
{
    if let Some(n) = turn.total {
        stats.total = n;
    }
    if turn.restored {
        stats.success = stats.success + 1;
    }
    if let Some(trouble) = &turn.trouble {
        stats.errors.push(trouble_text(trouble));
        assert(stats.errors@.drop_last() =~= old(stats).errors@);
    }
    (turn.next, turn.say)
}

/// Goes on with the command after a reply, and records what went wrong and what
/// was restored.
pub fn decrypt_entry_point(
    op: DecryptCommand<Vec<u8>, String, SecureKey>,
    reply: FileReply,
    stats: &mut EncryptionStats,
) -> (r: (
    Progress<DecryptCommand<Vec<u8>, String, SecureKey>, Vec<u8>, String>,
    Option<Notice<Vec<u8>, String>>,
))
    requires
        op@.wf(),
        !(op is Recover),
        answers(op@.pending(), reply@),
        can_be_recovered(reply@),
        old(stats).success < usize::MAX,
    ensures
        ({
            let clean = old(stats).errors@.len() == 0;
            exists|recovered: Result<Seq<u8>, CryptoError>| #[trigger]
                op@.can_recover(reply@, clean, recovered) && {
                    let turn = op@.after_recovering(reply@, clean, recovered);
                    &&& progress_view(r.0) == turn.next
                    &&& say_view(r.1) == turn.say
                    &&& command_records(*old(stats), *final(stats), turn)
                }
        }),
        r.0 matches Progress::Running(next) ==> next@.wf() && !(next is Recover),
{
    let ghost before = op@;
    let ghost said = reply@;
    let clean = stats.errors.len() == 0;
    let turn = decrypt_command_turn(op, reply, clean);
    match turn.next {
        Progress::Running(DecryptCommand::Recover { path, key_file, file, password }) => {
            let mut password = password;
            let recovered = recover_key_from_password(file.as_slice(), password.as_str());
            let ghost drawn = recovered_view(recovered);
            assert(before.can_recover(said, clean, drawn));
            wipe_text(&mut password);
            let next = accept_key(path, key_file, recovered);
            record_turn(stats, next)
        },
        _ => {
            proof {
                let drawn = Err::<Seq<u8>, CryptoError>(CryptoError::KdfEmpty);
                assert(before.can_recover(said, clean, drawn));
            }
            record_turn(stats, turn)
        },
    }
}

/// It is said that the password was right, that everything was restored or that the
/// key was kept, and that the key file was deleted. Nothing else is said.
pub proof fn law_decrypt_command_says_what_happens(
    s: DecryptCommandView,
    reply: ReplyView,
    clean: bool,
    recovered: Result<Seq<u8>, CryptoError>,
)
    requires
        !(s is Recover),
        answers(s.pending(), reply),
    ensures
        ({
            let said = s.after_recovering(reply, clean, recovered).say;
            match (s.pending(), reply) {
                (Action::AskPassword(_), Reply::Password(entered)) => said
                    == if entered_password(entered) is Ok && recovered is Ok {
                    Some(NoticeView::PasswordCorrect)
                } else {
                    None
                },
                (Action::DecryptFile(_), Reply::Outcome(r)) => said == if r is Ok && clean {
                    Some(NoticeView::AllSuccessful)
                } else {
                    Some(NoticeView::KeyKept)
                },
                (Action::DecryptDirectory(_, _), Reply::Outcome(Ok(_))) => said == if clean {
                    Some(NoticeView::AllSuccessful)
                } else {
                    Some(NoticeView::KeyKept)
                },
                (Action::SecureDelete(_), Reply::Outcome(Ok(_))) => said == Some(
                    NoticeView::KeyDeleted,
                ),
                _ => said is None,
            }
        }),
{
}

} // verus!

//! The command that encrypts a file or a directory.

use vstd::prelude::*;
use vstd::utf8::{
    encode_utf8, encode_utf8_valid_utf8, is_ascii_chars_encode_utf8, valid_utf8,
    valid_utf8_concat,
};
use crate::bytes::copied;
use crate::cli::password::{entered_password, read_password};
use crate::crypto::keyfile::{protects, recovers};
use crate::crypto::primitives::wipe_text;
use crate::crypto::{protect_key_with_password, CryptoError, SecureKey};
use crate::fsops::action::{
    answers, failed, progress_view, say_view, succeeded, Action, ActionView, Exchange, FileKind,
    FileReply, Notice, NoticeView, Progress, Reply, ReplyView,
};
use crate::fsops::error::{FileErrorView, FsError};
use crate::fsops::naming::{
    get_unique_path, law_variants_exist, law_variants_stay, unique_path_of, VARIANT_LIMIT,
};
use crate::paths::{
    file_name, file_name_of, file_stem, is_plain_name, join, join_of, law_extension_stays,
    law_file_name_is_plain, law_file_name_stays_text, law_join_file_name, law_join_parent,
    law_last_dot_parts_the_name, law_name_without_extension, law_parent_before_the_last_slash,
    lemma_dot_at_last_dot, parent_directory, parent_of, parent_or_dot, stem_of, stem_of_name,
    trimmed, with_extension, with_extension_of, DOT, SLASH,
};

verus! {

/// The permissions of a key file: its owner may read and write it.
pub const KEY_FILE_MODE: u32 = 0o600;

/// The path of the key file for what stands at `path`: next to it, and named
/// after it. A directory whose name has a stem of one dot or two gives its whole
/// name.
pub open spec fn key_path_of(path: Seq<u8>, is_directory: bool) -> Seq<u8> {
    let ext = encode_utf8("key"@);
    if is_directory {
        let stem = match stem_of(path) {
            Some(stem) => if stem == seq![DOT] || stem == seq![DOT, DOT] {
                file_name_of(path)->Some_0
            } else {
                stem
            },
            None => path,
        };
        with_extension_of(join_of(parent_or_dot(path), stem), ext)
    } else {
        with_extension_of(path, ext)
    }
}

/// Whether `name` consists of one dot or of two.
fn is_dots(name: &[u8]) -> (b: bool)
    ensures
        b == (name@ == seq![DOT] || name@ == seq![DOT, DOT]),
{
    let b = (name.len() == 1 && name[0] == DOT) || (name.len() == 2 && name[0] == DOT && name[1]
        == DOT);
    proof {
        if b {
            assert(name@ =~= seq![DOT] || name@ =~= seq![DOT, DOT]);
        }
    }
    b
}

/// The path of the key file for what stands at `path`.
pub fn key_path(path: &[u8], is_directory: bool) -> (key: Vec<u8>)
    ensures
        key@ == key_path_of(path@, is_directory),
{
    if is_directory {
        let dir = parent_directory(path);
        let stem = match file_stem(path) {
            Some(stem) => match file_name(path) {
                Some(name) => if is_dots(stem) {
                    name
                } else {
                    stem
                },
                None => stem,
            },
            None => path,
        };
        with_extension(join(dir.as_slice(), stem).as_slice(), "key".as_bytes())
    } else {
        with_extension(path, "key".as_bytes())
    }
}

/// The state of the command. `K` stands for a key.
pub enum EncryptCommand<P, T, K> {
    /// The path is looked up.
    FindPath { path: P },
    /// The password is asked for.
    AskPassword { path: P },
    /// The password is asked for again.
    AskAgain { path: P, password: T },
    /// The password is known; a key is to be made.
    Protect { path: P, password: T },
    /// It is found out whether the path is that of a directory.
    CheckKind { path: P, key: K, file: P },
    /// `variant` of the path `wanted` of the key file is looked up, after this
    /// many variants that were taken.
    Choose { path: P, key: K, file: P, wanted: P, variant: P, taken: u64 },
    /// The key file is written.
    WriteKey { path: P, key: K, file: P, target: P },
    /// The path is looked at.
    Stat { path: P, key: K },
    /// The file is encrypted.
    EncryptFile { path: P, key: K },
    /// The directory is encrypted.
    EncryptDirectory { path: P, key: K },
}

/// [`EncryptCommand`] as contracts speak of it.
pub type EncryptCommandView = EncryptCommand<Seq<u8>, Seq<char>, Seq<u8>>;

impl View for EncryptCommand<Vec<u8>, String, SecureKey> {
    type V = EncryptCommand<Seq<u8>, Seq<char>, Seq<u8>>;

    open spec fn view(&self) -> EncryptCommand<Seq<u8>, Seq<char>, Seq<u8>> {
        match *self {
            EncryptCommand::FindPath { path } => EncryptCommand::FindPath { path: path@ },
            EncryptCommand::AskPassword { path } => EncryptCommand::AskPassword { path: path@ },
            EncryptCommand::AskAgain { path, password } => EncryptCommand::AskAgain {
                path: path@,
                password: password@,
            },
            EncryptCommand::Protect { path, password } => EncryptCommand::Protect {
                path: path@,
                password: password@,
            },
            EncryptCommand::CheckKind { path, key, file } => EncryptCommand::CheckKind {
                path: path@,
                key: key@,
                file: file@,
            },
            EncryptCommand::Choose { path, key, file, wanted, variant, taken } => {
                EncryptCommand::Choose {
                    path: path@,
                    key: key@,
                    file: file@,
                    wanted: wanted@,
                    variant: variant@,
                    taken,
                }
            },
            EncryptCommand::WriteKey { path, key, file, target } => EncryptCommand::WriteKey {
                path: path@,
                key: key@,
                file: file@,
                target: target@,
            },
            EncryptCommand::Stat { path, key } => EncryptCommand::Stat { path: path@, key: key@ },
            EncryptCommand::EncryptFile { path, key } => EncryptCommand::EncryptFile {
                path: path@,
                key: key@,
            },
            EncryptCommand::EncryptDirectory { path, key } => EncryptCommand::EncryptDirectory {
                path: path@,
                key: key@,
            },
        }
    }
}

/// What follows when `taken` variants of `wanted` were taken.
pub open spec fn choosing_key_path(
    path: Seq<u8>,
    key: Seq<u8>,
    file: Seq<u8>,
    wanted: Seq<u8>,
    taken: u64,
) -> Progress<EncryptCommandView, Seq<u8>, Seq<char>> {
    match unique_path_of(wanted, taken) {
        Ok(variant) => Progress::Running(
            EncryptCommand::Choose { path, key, file, wanted, variant, taken },
        ),
        Err(e) => Progress::Finished(Err(e)),
    }
}

/// A key that was made, with the key file that protects it.
pub type MadeKey = Result<(Seq<u8>, Seq<u8>), CryptoError>;

/// A key and what protecting it returned, as contracts speak of them.
pub open spec fn made_view(key: SecureKey, made: Result<Vec<u8>, CryptoError>) -> MadeKey {
    match made {
        Ok(file) => Ok((key@, file@)),
        Err(e) => Err(e),
    }
}

/// What follows when a key was made.
pub open spec fn protecting(path: Seq<u8>, made: MadeKey) -> Progress<
    EncryptCommandView,
    Seq<u8>,
    Seq<char>,
> {
    match made {
        Ok((key, file)) => Progress::Running(EncryptCommand::CheckKind { path, key, file }),
        Err(e) => Progress::Finished(Err(FsError::Crypto(e))),
    }
}

impl EncryptCommand<Seq<u8>, Seq<char>, Seq<u8>> {
    /// The action that the command waits for.
    pub open spec fn pending(self) -> ActionView {
        match self {
            EncryptCommand::FindPath { path } => Action::CheckExists(path),
            EncryptCommand::AskPassword { .. } => Action::AskPassword(
                "Enter password to protect the key: "@,
            ),
            EncryptCommand::AskAgain { .. } => Action::AskPassword("Confirm password: "@),
            EncryptCommand::Protect { .. } => arbitrary(),
            EncryptCommand::CheckKind { path, .. } => Action::CheckDirectory(path),
            EncryptCommand::Choose { variant, .. } => Action::CheckTaken(variant),
            EncryptCommand::WriteKey { file, target, .. } => Action::WriteKeyFile(
                target,
                file,
                KEY_FILE_MODE,
            ),
            EncryptCommand::Stat { path, .. } => Action::Stat(path),
            EncryptCommand::EncryptFile { path, .. } => Action::EncryptFile(path),
            EncryptCommand::EncryptDirectory { path, .. } => Action::EncryptDirectory(path, 0),
        }
    }

    /// Whether no more variants were tried than are allowed.
    pub open spec fn wf(self) -> bool {
        self matches EncryptCommand::Choose { taken, .. } ==> taken < VARIANT_LIMIT
    }

    /// What follows a reply, and what is shown before.
    pub open spec fn after(self, reply: ReplyView) -> (
        Progress<EncryptCommandView, Seq<u8>, Seq<char>>,
        Option<NoticeView>,
    ) {
        match (self, reply) {
            (EncryptCommand::FindPath { path }, Reply::Answer(found)) => (
                if found {
                    Progress::Running(EncryptCommand::AskPassword { path })
                } else {
                    Progress::Finished(Err(FsError::PathMissing))
                },
                None,
            ),
            (EncryptCommand::AskPassword { path }, Reply::Password(entered)) => (
                match entered_password(entered) {
                    Ok(password) => Progress::Running(EncryptCommand::AskAgain { path, password }),
                    Err(e) => Progress::Finished(Err(e)),
                },
                None,
            ),
            (EncryptCommand::AskAgain { path, password }, Reply::Password(entered)) => (
                match entered_password(entered) {
                    Ok(again) => if again == password {
                        Progress::Running(EncryptCommand::Protect { path, password })
                    } else {
                        Progress::Finished(Err(FsError::PasswordsDiffer))
                    },
                    Err(e) => Progress::Finished(Err(e)),
                },
                None,
            ),
            (EncryptCommand::CheckKind { path, key, file }, Reply::Answer(is_directory)) => (
                choosing_key_path(path, key, file, key_path_of(path, is_directory), 0),
                None,
            ),
            (
                EncryptCommand::Choose { path, key, file, wanted, variant, taken },
                Reply::Answer(is_taken),
            ) => (
                if is_taken {
                    choosing_key_path(path, key, file, wanted, (taken + 1) as u64)
                } else {
                    Progress::Running(
                        EncryptCommand::WriteKey { path, key, file, target: variant },
                    )
                },
                None,
            ),
            (EncryptCommand::WriteKey { path, key, target, .. }, Reply::Done(Ok(_))) => (
                Progress::Running(EncryptCommand::Stat { path, key }),
                Some(Notice::KeySaved(target)),
            ),
            (EncryptCommand::Stat { path, key }, Reply::Meta(Ok((kind, _)))) => match kind {
                FileKind::File => (
                    Progress::Running(EncryptCommand::EncryptFile { path, key }),
                    None,
                ),
                FileKind::Directory => (
                    Progress::Running(EncryptCommand::EncryptDirectory { path, key }),
                    None,
                ),
                _ => (Progress::Finished(Ok(())), Some(Notice::NeitherFileNorDirectory)),
            },
            (EncryptCommand::EncryptFile { .. }, Reply::Outcome(r)) => (
                Progress::Finished(Ok(())),
                match r {
                    Ok(_) => None,
                    Err(e) => Some(Notice::EncryptionFailed(e)),
                },
            ),
            (EncryptCommand::EncryptDirectory { .. }, Reply::Outcome(r)) => (
                Progress::Finished(Ok(())),
                match r {
                    Ok(_) => None,
                    Err(e) => Some(Notice::DirectoryEncryptionFailed(e)),
                },
            ),
            (_, Reply::Meta(Err(text))) => (Progress::Finished(Err(FsError::Io(text))), None),
            (_, Reply::Done(Err(text))) => (Progress::Finished(Err(FsError::Io(text))), None),
            _ => arbitrary(),
        }
    }

    /// [`Self::after`], and the making of a key where that follows.
    pub open spec fn after_protecting(self, reply: ReplyView, made: MadeKey) -> (
        Progress<EncryptCommandView, Seq<u8>, Seq<char>>,
        Option<NoticeView>,
    ) {
        let (next, say) = self.after(reply);
        match next {
            Progress::Running(EncryptCommand::Protect { path, .. }) => (
                protecting(path, made),
                say,
            ),
            _ => (next, say),
        }
    }

    /// Whether `made` can come of making a key: a key file that was made
    /// protects the key with the password that was entered.
    pub open spec fn can_make(self, reply: ReplyView, made: MadeKey) -> bool {
        self.after(reply).0 matches Progress::Running(EncryptCommand::Protect { password, .. })
            ==> match made {
            Ok((key, file)) => protects(file, encode_utf8(password), key) && recovers(
                file,
                encode_utf8(password),
                Ok(key),
            ),
            Err(e) => e is KdfFailed && encode_utf8(password).len() > u32::MAX,
        }
    }
}

impl EncryptCommand<Vec<u8>, String, SecureKey> {
    /// Begins to encrypt what stands at `path`.
    pub fn begin(path: &[u8]) -> (op: Self)
        ensures
            op@ == (EncryptCommandView::FindPath { path: path@ }),
            op@.wf(),
            !(op is Protect),
    {
        EncryptCommand::FindPath { path: copied(path) }
    }

    /// The action that the command waits for.
    pub fn action(&self) -> (act: Action<Vec<u8>, String>)
        requires
            !(self is Protect),
        ensures
            act@ == self@.pending(),
    {
        match self {
            EncryptCommand::FindPath { path } => Action::CheckExists(copied(path.as_slice())),
            EncryptCommand::AskPassword { .. } => {
                Action::AskPassword("Enter password to protect the key: ".to_owned())
            },
            EncryptCommand::AskAgain { .. } => Action::AskPassword("Confirm password: ".to_owned()),
            EncryptCommand::Protect { path, .. } => Action::CheckExists(copied(path.as_slice())),
            EncryptCommand::CheckKind { path, .. } => {
                Action::CheckDirectory(copied(path.as_slice()))
            },
            EncryptCommand::Choose { variant, .. } => {
                Action::CheckTaken(copied(variant.as_slice()))
            },
            EncryptCommand::WriteKey { file, target, .. } => Action::WriteKeyFile(
                copied(target.as_slice()),
                copied(file.as_slice()),
                KEY_FILE_MODE,
            ),
            EncryptCommand::Stat { path, .. } => Action::Stat(copied(path.as_slice())),
            EncryptCommand::EncryptFile { path, .. } => {
                Action::EncryptFile(copied(path.as_slice()))
            },
            EncryptCommand::EncryptDirectory { path, .. } => {
                Action::EncryptDirectory(copied(path.as_slice()), 0)
            },
        }
    }

    /// The key that is encrypted under.
    pub open spec fn key_bytes(self) -> Option<Seq<u8>> {
        match self@ {
            EncryptCommand::EncryptFile { key, .. } => Some(key),
            EncryptCommand::EncryptDirectory { key, .. } => Some(key),
            _ => None,
        }
    }

    /// The key to encrypt under, where something is to be encrypted.
    pub fn key(&self) -> (key: Option<&SecureKey>)
        ensures
            match key {
                Some(k) => self.key_bytes() == Some(k@),
                None => self.key_bytes() is None,
            },
    {
        match self {
            EncryptCommand::EncryptFile { key, .. } => Some(key),
            EncryptCommand::EncryptDirectory { key, .. } => Some(key),
            _ => None,
        }
    }
}

/// Where the command stands for `path` after the exchanges `done`.
pub open spec fn encrypt_command_at(path: Seq<u8>, done: Seq<Exchange<MadeKey>>) -> Progress<
    EncryptCommandView,
    Seq<u8>,
    Seq<char>,
>
    decreases done.len(),
{
    if done.len() == 0 {
        Progress::Running(EncryptCommand::FindPath { path })
    } else {
        match encrypt_command_at(path, done.drop_last()) {
            Progress::Running(s) => s.after_protecting(done.last().reply, done.last().drawn).0,
            Progress::Finished(r) => Progress::Finished(r),
        }
    }
}

/// Whether `done` are exchanges of the command for `path`, from its beginning
/// on.
pub open spec fn is_encrypt_command(path: Seq<u8>, done: Seq<Exchange<MadeKey>>) -> bool
    decreases done.len(),
{
    done.len() > 0 ==> {
        &&& is_encrypt_command(path, done.drop_last())
        &&& encrypt_command_at(path, done.drop_last()) matches Progress::Running(s)
        &&& done.last().asked == s.pending()
        &&& answers(s.pending(), done.last().reply)
        &&& s.can_make(done.last().reply, done.last().drawn)
    }
}

/// Whether the exchanges with indices `i` and `i + 1` have entered the same
/// password twice, with which `file` protects `key`.
pub open spec fn password_protects(
    done: Seq<Exchange<MadeKey>>,
    i: int,
    key: Seq<u8>,
    file: Seq<u8>,
) -> bool {
    &&& 0 <= i < done.len() - 1
    &&& done[i].asked is AskPassword
    &&& done[i + 1].asked is AskPassword
    &&& done[i].reply matches Reply::Password(Ok(password))
    &&& password.len() > 0
    &&& done[i + 1].reply == ReplyView::Password(Ok(password))
    &&& protects(file, encode_utf8(password), key)
    &&& recovers(file, encode_utf8(password), Ok(key))
}

/// Whether the exchange with index `i` has written the key file `file` to a path
/// where the exchange before it had found nothing.
pub open spec fn key_written(done: Seq<Exchange<MadeKey>>, i: int, file: Seq<u8>) -> bool {
    &&& 0 < i < done.len()
    &&& done[i].asked matches Action::WriteKeyFile(target, bytes, mode)
    &&& bytes == file
    &&& mode == KEY_FILE_MODE
    &&& succeeded(done[i].reply)
    &&& done[i - 1].asked == ActionView::CheckTaken(target)
    &&& done[i - 1].reply == ReplyView::Answer(false)
}

/// Whether a key file that protects `key` with the password that was entered
/// twice was written in the exchanges `done`.
pub open spec fn key_is_safe(done: Seq<Exchange<MadeKey>>, key: Seq<u8>) -> bool {
    exists|i: int, w: int, file: Seq<u8>|
        #![trigger password_protects(done, i, key, file), key_written(done, w, file)]
        password_protects(done, i, key, file) && key_written(done, w, file)
}

/// What has happened before the state that the exchanges `done` lead to.
spec fn encrypt_command_holds(path: Seq<u8>, done: Seq<Exchange<MadeKey>>) -> bool {
    match encrypt_command_at(path, done) {
        Progress::Running(EncryptCommand::FindPath { path: p }) => p == path && done.len() == 0,
        Progress::Running(EncryptCommand::AskPassword { path: p }) => p == path && done.len() == 1,
        Progress::Running(EncryptCommand::AskAgain { path: p, password }) => {
            &&& p == path
            &&& done.len() == 2
            &&& done[1].asked is AskPassword
            &&& done[1].reply == ReplyView::Password(Ok(password))
            &&& password.len() > 0
        },
        Progress::Running(EncryptCommand::Protect { .. }) => false,
        Progress::Running(EncryptCommand::CheckKind { path: p, key, file }) => p == path
            && password_protects(done, 1, key, file),
        Progress::Running(EncryptCommand::Choose { path: p, key, file, .. }) => p == path
            && password_protects(done, 1, key, file),
        Progress::Running(EncryptCommand::WriteKey { path: p, key, file, target }) => {
            &&& p == path
            &&& password_protects(done, 1, key, file)
            &&& done.last().asked == ActionView::CheckTaken(target)
            &&& done.last().reply == ReplyView::Answer(false)
        },
        Progress::Running(EncryptCommand::Stat { path: p, key }) => p == path && key_is_safe(
            done,
            key,
        ),
        Progress::Running(EncryptCommand::EncryptFile { path: p, key }) => p == path
            && key_is_safe(done, key),
        Progress::Running(EncryptCommand::EncryptDirectory { path: p, key }) => p == path
            && key_is_safe(done, key),
        Progress::Finished(_) => true,
    }
}

proof fn lemma_key_stays_safe(done: Seq<Exchange<MadeKey>>, key: Seq<u8>)
    requires
        done.len() > 0,
        key_is_safe(done.drop_last(), key),
    ensures
        key_is_safe(done, key),
{
    let before = done.drop_last();
    let (i, w, file) = choose|i: int, w: int, file: Seq<u8>|
        #![trigger password_protects(before, i, key, file), key_written(before, w, file)]
        password_protects(before, i, key, file) && key_written(before, w, file);
    assert(password_protects(done, i, key, file));
    assert(key_written(done, w, file));
}

proof fn lemma_encrypt_command(path: Seq<u8>, done: Seq<Exchange<MadeKey>>)
    requires
        is_encrypt_command(path, done),
    ensures
        encrypt_command_holds(path, done),
    decreases done.len(),
{
    if done.len() > 0 {
        let before = done.drop_last();
        lemma_encrypt_command(path, before);
        match encrypt_command_at(path, before)->Running_0 {
            EncryptCommand::AskAgain { .. } => {
                if let Progress::Running(EncryptCommand::CheckKind { key, file, .. }) =
                    encrypt_command_at(path, done) {
                    assert(password_protects(done, 1, key, file));
                }
                assert(encrypt_command_holds(path, done));
            },
            EncryptCommand::CheckKind { key, file, .. } => {
                assert(password_protects(done, 1, key, file));
                assert(encrypt_command_holds(path, done));
            },
            EncryptCommand::Choose { key, file, .. } => {
                assert(password_protects(done, 1, key, file));
                assert(encrypt_command_holds(path, done));
            },
            EncryptCommand::WriteKey { key, file, .. } => {
                assert(password_protects(done, 1, key, file));
                if succeeded(done.last().reply) {
                    assert(key_written(done, done.len() - 1, file));
                    assert(key_is_safe(done, key));
                }
                assert(encrypt_command_holds(path, done));
            },
            EncryptCommand::Stat { key, .. } => {
                lemma_key_stays_safe(done, key);
                assert(encrypt_command_holds(path, done));
            },
            _ => {
                assert(encrypt_command_holds(path, done));
            },
        }
    }
}

/// Nothing is encrypted before a key file was written, to a path where nothing
/// was found, that gives the key back under the password that was entered twice.
pub proof fn law_key_is_safe_first(path: Seq<u8>, done: Seq<Exchange<MadeKey>>)
    requires
        is_encrypt_command(path, done),
    ensures
        match encrypt_command_at(path, done) {
            Progress::Running(EncryptCommand::EncryptFile { path: p, key }) => p == path
                && key_is_safe(done, key),
            Progress::Running(EncryptCommand::EncryptDirectory { path: p, key }) => p == path
                && key_is_safe(done, key),
            Progress::Running(s) => !(s.pending() is EncryptFile) && !(s.pending()
                is EncryptDirectory),
            Progress::Finished(_) => true,
        },
{
    lemma_encrypt_command(path, done);
}

/// Which variants of the key file's path were tried before the state that the
/// exchanges `done` lead to.
spec fn key_choice_holds(path: Seq<u8>, done: Seq<Exchange<MadeKey>>) -> bool {
    let n = done.len() as int;
    let wanted = key_path_of(path, done[3].reply->Answer_0);
    match encrypt_command_at(path, done) {
        Progress::Running(EncryptCommand::FindPath { .. }) => n == 0,
        Progress::Running(EncryptCommand::AskPassword { .. }) => n == 1,
        Progress::Running(EncryptCommand::AskAgain { .. }) => n == 2,
        Progress::Running(EncryptCommand::CheckKind { .. }) => n == 3,
        Progress::Running(EncryptCommand::Choose { wanted: w, variant, taken, .. }) => {
            &&& w == wanted
            &&& taken < VARIANT_LIMIT
            &&& n == 4 + taken
            &&& unique_path_of(wanted, taken) == Ok::<Seq<u8>, FileErrorView>(variant)
        },
        Progress::Running(EncryptCommand::WriteKey { target, .. }) => {
            &&& 5 <= n < 5 + VARIANT_LIMIT
            &&& unique_path_of(wanted, (n - 5) as u64) == Ok::<Seq<u8>, FileErrorView>(target)
        },
        Progress::Running(_) => n > 5,
        Progress::Finished(_) => true,
    }
}

proof fn lemma_key_choice(path: Seq<u8>, done: Seq<Exchange<MadeKey>>)
    requires
        is_encrypt_command(path, done),
    ensures
        key_choice_holds(path, done),
    decreases done.len(),
{
    if done.len() > 0 {
        let before = done.drop_last();
        lemma_key_choice(path, before);
        lemma_encrypt_command(path, done);
        assert(done.len() > 4 ==> before[3] == done[3]);
        assert(key_choice_holds(path, done));
    }
}

/// What the key file of the directory at `path` is named after.
spec fn key_base(path: Seq<u8>) -> Seq<u8> {
    let stem = stem_of(path)->Some_0;
    if stem == seq![DOT] || stem == seq![DOT, DOT] {
        file_name_of(path)->Some_0
    } else {
        stem
    }
}

proof fn lemma_key_base(path: Seq<u8>)
    requires
        file_name_of(path) is Some,
    ensures
        is_plain_name(key_base(path)),
{
    let name = file_name_of(path)->Some_0;
    let stem = stem_of(path)->Some_0;
    law_file_name_is_plain(path);
    lemma_dot_at_last_dot(name);
    assert forall|i: int| 0 <= i < stem.len() implies stem[i] != SLASH by {
        assert(name.contains(name[i]));
    }
}

/// The key file lies next to what is encrypted.
pub proof fn law_key_stays(path: Seq<u8>, done: Seq<Exchange<MadeKey>>)
    requires
        is_encrypt_command(path, done),
        encrypt_command_at(path, done) matches Progress::Running(s) && s.pending() is WriteKeyFile,
        file_name_of(path) is Some,
    ensures
        encrypt_command_at(path, done)->Running_0.pending() matches Action::WriteKeyFile(target, _, _)
            && parent_of(target) == parent_of(path),
{
    let is_directory = done[3].reply->Answer_0;
    let wanted = key_path_of(path, is_directory);
    let taken = (done.len() - 5) as u64;
    lemma_encrypt_command(path, done);
    lemma_key_choice(path, done);
    lemma_kind_is_asked(path, done);
    let ext = encode_utf8("key"@);
    reveal_strlit("key");
    is_ascii_chars_encode_utf8("key"@);
    assert(ext =~= seq![107u8, 101u8, 121u8]);
    if is_directory {
        let base = key_base(path);
        lemma_key_base(path);
        law_join_file_name(parent_or_dot(path), base);
        law_join_parent(path, base);
        law_extension_stays(join_of(parent_or_dot(path), base), ext);
    } else {
        law_extension_stays(path, ext);
    }
    assert(parent_of(wanted) == parent_of(path));
    if taken > 0 {
        law_variants_stay(wanted, taken);
    }
}

proof fn lemma_kind_is_asked(path: Seq<u8>, done: Seq<Exchange<MadeKey>>)
    requires
        is_encrypt_command(path, done),
    ensures
        done.len() > 3 ==> done[3].reply is Answer,
    decreases done.len(),
{
    if done.len() > 4 {
        lemma_kind_is_asked(path, done.drop_last());
    } else if done.len() == 4 {
        lemma_key_choice(path, done.drop_last());
    }
}

/// Whether, in the exchanges `done`, all variants of the path of the key file were
/// found to be taken.
pub open spec fn all_key_paths_taken(done: Seq<Exchange<MadeKey>>) -> bool {
    &&& done.len() >= 4 + VARIANT_LIMIT
    &&& forall|i: int|
        4 <= i < 4 + VARIANT_LIMIT ==> (#[trigger] done[i]).reply == ReplyView::Answer(true)
}

/// Whether, in the exchanges `done`, the path was found, a password that the key
/// derivation takes was entered twice, there was a place for the key file, and
/// nothing failed before the encryption. The path of the key file has variants
/// where the name at `path` is text.
pub open spec fn goes_well(path: Seq<u8>, done: Seq<Exchange<MadeKey>>) -> bool {
    &&& done.len() > 0 ==> done[0].reply == ReplyView::Answer(true)
    &&& done.len() > 1 ==> (done[1].reply matches Reply::Password(Ok(password)) && 0
        < password.len() && encode_utf8(password).len() <= u32::MAX)
    &&& done.len() > 2 ==> done[2].reply == done[1].reply
    &&& done.len() > 4 && done[4].reply == ReplyView::Answer(true) ==> (file_name_of(
        path,
    ) matches Some(name) && valid_utf8(name)) && !all_key_paths_taken(done)
    &&& forall|i: int|
        0 <= i < done.len() ==> (#[trigger] done[i]).asked is EncryptFile || done[i].asked
            is EncryptDirectory || !failed(done[i].reply)
}

/// Where the name at `path` is text, so is the name of its key file.
proof fn lemma_key_path_is_text(path: Seq<u8>, is_directory: bool)
    requires
        file_name_of(path) matches Some(name) && valid_utf8(name),
    ensures
        file_name_of(key_path_of(path, is_directory)) matches Some(name) && valid_utf8(name),
{
    let name = file_name_of(path)->Some_0;
    let ext = encode_utf8("key"@);
    let dot = seq![DOT];
    reveal_strlit("key");
    reveal_strlit(".");
    is_ascii_chars_encode_utf8("key"@);
    is_ascii_chars_encode_utf8("."@);
    encode_utf8_valid_utf8("key"@);
    encode_utf8_valid_utf8("."@);
    assert(ext =~= seq![107u8, 101u8, 121u8]);
    assert(dot =~= encode_utf8("."@));
    law_file_name_is_plain(path);
    law_join_file_name(Seq::empty(), name);
    assert(join_of(Seq::empty(), name) =~= name);
    law_file_name_stays_text(name);
    let base = if is_directory {
        lemma_key_base(path);
        key_base(path)
    } else {
        name
    };
    let place = if is_directory {
        law_join_file_name(parent_or_dot(path), base);
        join_of(parent_or_dot(path), base)
    } else {
        path
    };
    law_join_file_name(Seq::empty(), base);
    assert(join_of(Seq::empty(), base) =~= base);
    law_file_name_stays_text(base);
    law_extension_stays(place, ext);
    valid_utf8_concat(stem_of_name(base), dot);
    valid_utf8_concat(stem_of_name(base) + dot, ext);
}

proof fn lemma_goes_well(path: Seq<u8>, done: Seq<Exchange<MadeKey>>)
    requires
        is_encrypt_command(path, done),
        goes_well(path, done),
    ensures
        match encrypt_command_at(path, done) {
            Progress::Running(EncryptCommand::Choose { .. }) => forall|i: int|
                4 <= i < done.len() ==> (#[trigger] done[i]).reply == ReplyView::Answer(true),
            Progress::Running(_) => true,
            Progress::Finished(r) => r is Ok && done.len() > 0 && tried_to_encrypt(
                path,
                done.last(),
            ),
        },
    decreases done.len(),
{
    if done.len() > 0 {
        let before = done.drop_last();
        assert forall|i: int| 0 <= i < before.len() implies (#[trigger] before[i]).asked
            is EncryptFile || before[i].asked is EncryptDirectory || !failed(before[i].reply) by {
            assert(before[i] == done[i]);
        }
        if all_key_paths_taken(before) {
            assert forall|i: int| 4 <= i < 4 + VARIANT_LIMIT implies (#[trigger] done[i]).reply
                == ReplyView::Answer(true) by {
                assert(before[i] == done[i]);
            }
        }
        assert(goes_well(path, before));
        lemma_goes_well(path, before);
        lemma_encrypt_command(path, before);
        lemma_key_choice(path, before);
        lemma_kind_is_asked(path, done);
        let last = done[done.len() - 1];
        assert(last.asked is EncryptFile || last.asked is EncryptDirectory || !failed(last.reply));
        if let EncryptCommand::Choose { wanted, taken, .. } = encrypt_command_at(
            path,
            before,
        )->Running_0 {
            if last.reply == ReplyView::Answer(true) {
                assert forall|i: int| 4 <= i < done.len() implies (#[trigger] done[i]).reply
                    == ReplyView::Answer(true) by {
                    if i < before.len() {
                        assert(before[i] == done[i]);
                    }
                }
                assert(done[4].reply == ReplyView::Answer(true));
                lemma_key_path_is_text(path, before[3].reply->Answer_0);
                if taken + 1 < VARIANT_LIMIT {
                    law_variants_exist(wanted, (taken + 1) as u64);
                }
            }
        }
    }
}

/// Whether `last` has tried to encrypt what stands at `path`, or has found that
/// neither a file nor a directory stands there.
pub open spec fn tried_to_encrypt(path: Seq<u8>, last: Exchange<MadeKey>) -> bool {
    ||| last.asked == ActionView::EncryptFile(path)
    ||| last.asked == ActionView::EncryptDirectory(path, 0)
    ||| last.asked == ActionView::Stat(path) && (last.reply matches Reply::Meta(Ok((kind, _)))
        && kind != FileKind::File && kind != FileKind::Directory)
}

/// A command in which nothing fails before the encryption ends well, and comes to
/// the encryption of what stands at the path, if that is a file or a directory.
pub proof fn law_faithful_encrypt_command_succeeds(path: Seq<u8>, done: Seq<Exchange<MadeKey>>)
    requires
        is_encrypt_command(path, done),
        encrypt_command_at(path, done) is Finished,
        goes_well(path, done),
    ensures
        encrypt_command_at(path, done) matches Progress::Finished(Ok(_)),
        done.len() > 0,
        tried_to_encrypt(path, done.last()),
{
    lemma_goes_well(path, done);
}

/// What the making of a key has given to the state that the exchanges `done` lead
/// to.
proof fn lemma_made_key(path: Seq<u8>, done: Seq<Exchange<MadeKey>>)
    requires
        is_encrypt_command(path, done),
    ensures
        match encrypt_command_at(path, done) {
            Progress::Running(EncryptCommand::CheckKind { key, file, .. }) => done.len() > 2
                && done[2].drawn == MadeKey::Ok((key, file)),
            Progress::Running(EncryptCommand::Choose { key, file, .. }) => done.len() > 2
                && done[2].drawn == MadeKey::Ok((key, file)),
            Progress::Running(EncryptCommand::WriteKey { key, file, .. }) => done.len() > 2
                && done[2].drawn == MadeKey::Ok((key, file)),
            Progress::Running(EncryptCommand::Stat { key, .. }) => done.len() > 2
                && done[2].drawn is Ok && done[2].drawn->Ok_0.0 == key,
            Progress::Running(EncryptCommand::EncryptFile { key, .. }) => done.len() > 2
                && done[2].drawn is Ok && done[2].drawn->Ok_0.0 == key,
            Progress::Running(EncryptCommand::EncryptDirectory { key, .. }) => done.len() > 2
                && done[2].drawn is Ok && done[2].drawn->Ok_0.0 == key,
            _ => true,
        },
    decreases done.len(),
{
    if done.len() > 0 {
        lemma_made_key(path, done.drop_last());
        lemma_key_choice(path, done.drop_last());
    }
}

/// Whether the command asks for `action` next.
pub open spec fn asks(
    next: Progress<EncryptCommandView, Seq<u8>, Seq<char>>,
    action: ActionView,
) -> bool {
    next matches Progress::Running(s) && s.pending() == action
}

/// Whether the command ends with `error`.
pub open spec fn ends_with(
    next: Progress<EncryptCommandView, Seq<u8>, Seq<char>>,
    error: FileErrorView,
) -> bool {
    next matches Progress::Finished(r) && r == Err::<(), FileErrorView>(error)
}

/// What the command asks for follows from the answers to what it has asked for
/// before: it looks for the path, asks for the password twice, finds out where the
/// key file goes, writes the key file that protects the key, looks at the path,
/// and asks for the encryption of what it finds there. What stands there decides
/// that alone: a file is encrypted as a file, a directory as a directory, whatever
/// their size.
pub proof fn law_encrypt_command_follows_its_course(path: Seq<u8>, done: Seq<Exchange<MadeKey>>)
    requires
        is_encrypt_command(path, done),
    ensures
        ({
            let next = encrypt_command_at(path, done);
            let n = done.len();
            if n == 0 {
                asks(next, Action::CheckExists(path))
            } else {
                match (done.last().asked, done.last().reply) {
                    (Action::CheckExists(_), Reply::Answer(found)) => if found {
                        asks(next, Action::AskPassword("Enter password to protect the key: "@))
                    } else {
                        ends_with(next, FsError::PathMissing)
                    },
                    (Action::AskPassword(_), Reply::Password(Err(text))) => ends_with(
                        next,
                        FsError::Io(text),
                    ),
                    (Action::AskPassword(_), Reply::Password(Ok(password))) => if password.len()
                        == 0 {
                        ends_with(next, FsError::PasswordEmpty)
                    } else if n == 2 {
                        asks(next, Action::AskPassword("Confirm password: "@))
                    } else if done[1].reply != done[2].reply {
                        ends_with(next, FsError::PasswordsDiffer)
                    } else {
                        match done[2].drawn {
                            Ok(_) => asks(next, Action::CheckDirectory(path)),
                            Err(e) => ends_with(next, FsError::Crypto(e)),
                        }
                    },
                    (Action::CheckDirectory(_), Reply::Answer(is_directory)) => asks(
                        next,
                        Action::CheckTaken(key_path_of(path, is_directory)),
                    ),
                    (Action::CheckTaken(variant), Reply::Answer(taken)) => if taken {
                        match unique_path_of(
                            key_path_of(path, done[3].reply->Answer_0),
                            (n - 4) as u64,
                        ) {
                            Ok(other) => asks(next, Action::CheckTaken(other)),
                            Err(e) => ends_with(next, e),
                        }
                    } else {
                        done[2].drawn matches Ok((key, file)) && asks(
                            next,
                            Action::WriteKeyFile(variant, file, 0o600),
                        )
                    },
                    (Action::WriteKeyFile(_, _, _), Reply::Done(r)) => match r {
                        Ok(_) => asks(next, Action::Stat(path)),
                        Err(text) => ends_with(next, FsError::Io(text)),
                    },
                    (Action::Stat(_), Reply::Meta(r)) => match r {
                        Ok((FileKind::File, _)) => asks(next, Action::EncryptFile(path)),
                        Ok((FileKind::Directory, _)) => asks(
                            next,
                            Action::EncryptDirectory(path, 0),
                        ),
                        Ok(_) => next matches Progress::Finished(Ok(_)),
                        Err(text) => ends_with(next, FsError::Io(text)),
                    },
                    (Action::EncryptFile(_), Reply::Outcome(_)) => next matches Progress::Finished(
                        Ok(_),
                    ),
                    (
                        Action::EncryptDirectory(_, _),
                        Reply::Outcome(_),
                    ) => next matches Progress::Finished(Ok(_)),
                    _ => false,
                }
            }
        }),
{
    if done.len() > 0 {
        let before = done.drop_last();
        lemma_encrypt_command(path, before);
        lemma_key_choice(path, before);
        lemma_made_key(path, before);
        lemma_kind_is_asked(path, done);
        if done.len() > 3 {
            assert(before[2] == done[2]);
        }
    }
}

/// What stands at the path decides how it is encrypted, and nothing else does:
/// behind a look that found a file of any size, that file is encrypted, and behind
/// one that found a directory, that directory is, under the key that the key file
/// protects.
pub proof fn law_kind_decides_encryption(path: Seq<u8>, done: Seq<Exchange<MadeKey>>, i: int)
    requires
        is_encrypt_command(path, done),
        0 <= i < done.len() - 1,
    ensures
        (done[i].asked matches Action::Stat(_)) && (done[i].reply matches Reply::Meta(
            Ok((FileKind::File, _)),
        )) ==> done[i + 1].asked == ActionView::EncryptFile(path),
        (done[i].asked matches Action::Stat(_)) && (done[i].reply matches Reply::Meta(
            Ok((FileKind::Directory, _)),
        )) ==> done[i + 1].asked == ActionView::EncryptDirectory(path, 0),
        done[i + 1].asked is EncryptFile || done[i + 1].asked is EncryptDirectory
            ==> done[i].asked == ActionView::Stat(path),
    decreases done.len(),
{
    if i + 1 < done.len() - 1 {
        law_kind_decides_encryption(path, done.drop_last(), i);
    } else {
        let before = done.drop_last();
        law_encrypt_command_follows_its_course(path, before);
        reveal_with_fuel(is_encrypt_command, 3);
        reveal_with_fuel(encrypt_command_at, 3);
        lemma_encrypt_command(path, before.drop_last());
        assert(before.last() == done[i]);
    }
}

/// When the two passwords differ, the command ends there: nothing was asked for
/// but the path and the passwords.
pub proof fn law_differing_passwords_change_nothing(path: Seq<u8>, done: Seq<Exchange<MadeKey>>)
    requires
        is_encrypt_command(path, done),
        done.len() == 3,
        done[1].reply matches Reply::Password(Ok(_)),
        done[2].reply matches Reply::Password(Ok(again)) && again.len() > 0,
        done[1].reply != done[2].reply,
    ensures
        encrypt_command_at(path, done) == Progress::<EncryptCommandView, Seq<u8>, Seq<char>>::Finished(
            Err(FsError::PasswordsDiffer),
        ),
        done[0].asked == ActionView::CheckExists(path),
        done[1].asked is AskPassword,
        done[2].asked is AskPassword,
{
    reveal_with_fuel(is_encrypt_command, 4);
    reveal_with_fuel(encrypt_command_at, 4);
    let two = done.drop_last();
    let one = two.drop_last();
    assert(one.drop_last() =~= Seq::empty());
    lemma_encrypt_command(path, one);
    lemma_encrypt_command(path, two);
    assert(one[0] == done[0] && two[1] == done[1]);
}

/// Tries the next variant of `wanted`, after `taken` variants that were taken.
fn choose_key_path(
    path: Vec<u8>,
    key: SecureKey,
    file: Vec<u8>,
    wanted: Vec<u8>,
    taken: u64,
) -> (r: Progress<EncryptCommand<Vec<u8>, String, SecureKey>, Vec<u8>, String>)
    ensures
        progress_view(r) == choosing_key_path(path@, key@, file@, wanted@, taken),
        r matches Progress::Running(next) ==> next@.wf() && !(next is Protect),
{
    match get_unique_path(wanted.as_slice(), taken) {
        Ok(variant) => Progress::Running(
            EncryptCommand::Choose { path, key, file, wanted, variant, taken },
        ),
        Err(e) => Progress::Finished(Err(e)),
    }
}

/// Goes on with the command after a reply, up to the making of a key.
pub fn encrypt_command_turn(
    op: EncryptCommand<Vec<u8>, String, SecureKey>,
    reply: FileReply,
) -> (r: (
    Progress<EncryptCommand<Vec<u8>, String, SecureKey>, Vec<u8>, String>,
    Option<Notice<Vec<u8>, String>>,
))
    requires
        op@.wf(),
        !(op is Protect),
        answers(op@.pending(), reply@),
    ensures
        (progress_view(r.0), say_view(r.1)) == op@.after(reply@),
        r.0 matches Progress::Running(next) ==> next@.wf(),
{
    match (op, reply) {
        (EncryptCommand::FindPath { path }, Reply::Answer(found)) => {
            if found {
                (Progress::Running(EncryptCommand::AskPassword { path }), None)
            } else {
                (Progress::Finished(Err(FsError::PathMissing)), None)
            }
        },
        (EncryptCommand::AskPassword { path }, Reply::Password(entered)) => {
            match read_password(entered) {
                Ok(password) => {
                    (Progress::Running(EncryptCommand::AskAgain { path, password }), None)
                },
                Err(e) => (Progress::Finished(Err(e)), None),
            }
        },
        (EncryptCommand::AskAgain { path, password }, Reply::Password(entered)) => {
            match read_password(entered) {
                Ok(again) => {
                    let mut again = again;
                    if again == password {
                        wipe_text(&mut again);
                        (Progress::Running(EncryptCommand::Protect { path, password }), None)
                    } else {
                        (Progress::Finished(Err(FsError::PasswordsDiffer)), None)
                    }
                },
                Err(e) => (Progress::Finished(Err(e)), None),
            }
        },
        (EncryptCommand::CheckKind { path, key, file }, Reply::Answer(is_directory)) => {
            let wanted = key_path(path.as_slice(), is_directory);
            (choose_key_path(path, key, file, wanted, 0), None)
        },
        (
            EncryptCommand::Choose { path, key, file, wanted, variant, taken },
            Reply::Answer(is_taken),
        ) => {
            if is_taken {
                (choose_key_path(path, key, file, wanted, taken + 1), None)
            } else {
                (
                    Progress::Running(
                        EncryptCommand::WriteKey { path, key, file, target: variant },
                    ),
                    None,
                )
            }
        },
        (EncryptCommand::WriteKey { path, key, file: _, target }, Reply::Done(Ok(_))) => {
            (
                Progress::Running(EncryptCommand::Stat { path, key }),
                Some(Notice::KeySaved(target)),
            )
        },
        (EncryptCommand::Stat { path, key }, Reply::Meta(Ok((kind, _)))) => {
            match kind {
                FileKind::File => {
                    (Progress::Running(EncryptCommand::EncryptFile { path, key }), None)
                },
                FileKind::Directory => {
                    (Progress::Running(EncryptCommand::EncryptDirectory { path, key }), None)
                },
                _ => (Progress::Finished(Ok(())), Some(Notice::NeitherFileNorDirectory)),
            }
        },
        (EncryptCommand::EncryptFile { path: _, key: _ }, Reply::Outcome(outcome)) => {
            match outcome {
                Ok(_) => (Progress::Finished(Ok(())), None),
                Err(e) => (Progress::Finished(Ok(())), Some(Notice::EncryptionFailed(e))),
            }
        },
        (EncryptCommand::EncryptDirectory { path: _, key: _ }, Reply::Outcome(outcome)) => {
            match outcome {
                Ok(_) => (Progress::Finished(Ok(())), None),
                Err(e) => (
                    Progress::Finished(Ok(())),
                    Some(Notice::DirectoryEncryptionFailed(e)),
                ),
            }
        },
        (_, Reply::Meta(Err(text))) => (Progress::Finished(Err(FsError::Io(text))), None),
        (_, Reply::Done(Err(text))) => (Progress::Finished(Err(FsError::Io(text))), None),
        (_, _) => (Progress::Finished(Ok(())), None),
    }
}

/// Goes on with the command after a reply.
pub fn encrypt_entry_point(
    op: EncryptCommand<Vec<u8>, String, SecureKey>,
    reply: FileReply,
) -> (r: (
    Progress<EncryptCommand<Vec<u8>, String, SecureKey>, Vec<u8>, String>,
    Option<Notice<Vec<u8>, String>>,
))
    requires
        op@.wf(),
        !(op is Protect),
        answers(op@.pending(), reply@),
    ensures
        exists|made: MadeKey| #[trigger]
            op@.can_make(reply@, made) && (progress_view(r.0), say_view(r.1))
                == op@.after_protecting(reply@, made),
        r.0 matches Progress::Running(next) ==> next@.wf() && !(next is Protect),
{
    let ghost before = op@;
    let ghost said = reply@;
    let (next, say) = encrypt_command_turn(op, reply);
    match next {
        Progress::Running(EncryptCommand::Protect { path, password }) => {
            let mut password = password;
            let key = SecureKey::generate();
            let made = protect_key_with_password(&key, password.as_str());
            let ghost drawn = made_view(key, made);
            assert(before.can_make(said, drawn));
            wipe_text(&mut password);
            match made {
                Ok(file) => (
                    Progress::Running(EncryptCommand::CheckKind { path, key, file }),
                    say,
                ),
                Err(e) => (Progress::Finished(Err(FsError::Crypto(e))), say),
            }
        },
        other => {
            proof {
                let drawn: MadeKey = Err(CryptoError::KdfEmpty);
                assert(before.can_make(said, drawn));
            }
            (other, say)
        },
    }
}

/// The key file of a file stands next to it and has its name, with `key` for an
/// extension. So does that of a directory.
pub proof fn law_key_file_stands_beside(
    front: Seq<u8>,
    stem: Seq<u8>,
    extension: Seq<u8>,
    is_directory: bool,
)
    requires
        front.len() > 0,
        front.last() != 47u8,
        trimmed(front) == front,
        is_plain_name(stem),
        forall|i: int| 0 < i < stem.len() ==> stem[i] != 46u8,
        !extension.contains(47u8),
        !extension.contains(46u8),
    ensures
        ({
            let key = seq![46u8, 107u8, 101u8, 121u8];
            &&& key_path_of(front + seq![47u8] + stem, is_directory) == front + seq![47u8] + stem
                + key
            &&& key_path_of(front + seq![47u8] + stem + seq![46u8] + extension, is_directory)
                == front + seq![47u8] + stem + key
        }),
{
    let ext = encode_utf8("key"@);
    let key = seq![46u8, 107u8, 101u8, 121u8];
    reveal_strlit("key");
    is_ascii_chars_encode_utf8("key"@);
    assert(seq![46u8] + ext =~= key);
    let bare = front + seq![47u8] + stem;
    let name = stem + seq![46u8] + extension;
    let path = front + seq![47u8] + stem + seq![46u8] + extension;
    assert(path =~= front + seq![47u8] + name);
    assert forall|i: int| 0 <= i < name.len() implies name[i] != SLASH by {
        if i < stem.len() {
            assert(stem.contains(stem[i]));
        } else if i > stem.len() {
            assert(extension.contains(extension[i - stem.len() - 1]));
        }
    }
    assert(is_plain_name(name)) by {
        assert(name[0] == stem[0]);
        if name.len() == 2 {
            assert(stem.len() == 1);
            assert(stem =~= seq![stem[0]]);
        } else if name.len() == 1 {
            assert(false);
        }
    }
    law_name_without_extension(front, stem);
    law_last_dot_parts_the_name(front, stem, extension);
    law_parent_before_the_last_slash(front, stem);
    law_parent_before_the_last_slash(front, name);
    assert(stem.contains(stem[0]));
    assert(join_of(front, stem) =~= bare);
    assert(bare + seq![46u8] + ext =~= bare + key);
}

/// It is said where the key was saved, that an encryption failed and why, and that
/// there was nothing to encrypt. Nothing else is said.
pub proof fn law_encrypt_command_says_what_happens(
    s: EncryptCommandView,
    reply: ReplyView,
    made: MadeKey,
)
    requires
        !(s is Protect),
        answers(s.pending(), reply),
    ensures
        ({
            let said = s.after_protecting(reply, made).1;
            match (s.pending(), reply) {
                (Action::WriteKeyFile(target, _, _), Reply::Done(Ok(_))) => said == Some(
                    NoticeView::KeySaved(target),
                ),
                (Action::Stat(_), Reply::Meta(Ok((kind, _)))) => said == if kind == FileKind::File
                    || kind == FileKind::Directory {
                    None
                } else {
                    Some(NoticeView::NeitherFileNorDirectory)
                },
                (Action::EncryptFile(_), Reply::Outcome(Err(e))) => said == Some(
                    NoticeView::EncryptionFailed(e),
                ),
                (Action::EncryptDirectory(_, _), Reply::Outcome(Err(e))) => said == Some(
                    NoticeView::DirectoryEncryptionFailed(e),
                ),
                _ => said is None,
            }
        }),
{
}

} // verus!

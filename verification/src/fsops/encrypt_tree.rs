//! Encryption of a whole directory tree: the run of a directory, with the runs of
//! the directories in it, and what it leaves.

use vstd::prelude::*;
use vstd::utf8::encode_utf8;
use crate::crypto::container::{
    chunk_count, container, container_opens, law_container_decrypts, MAX_METADATA_LEN,
};
use crate::crypto::key::SALT_LEN;
use crate::crypto::primitives::{cipher_accepts, TAG_LEN};
use crate::fsops::action::{
    answers, failed, Action, ActionView, Exchange, FileKind, Progress, Reply, ReplyView,
};
use crate::fsops::encrypt::{
    self, encryption_at, is_encryption, is_output, law_faithful_encryption_succeeds,
    law_success_sealed, sealed_into,
};
use crate::fsops::encrypt_dir::{
    directory_encryption, directory_encryption_at, directory_name, is_directory_encryption,
    DirectoryDraw, EncryptDirectory, EncryptDirectoryView,
    law_faithful_directory_encryption_succeeds, MAX_DEPTH,
};
use crate::fsops::error::FileErrorView;
use crate::fsops::hidden_tree::{holds_name, lemma_random_names, paths_in, Tree};
use crate::fsops::naming::{ciphertext_path_of, is_random_name};
use crate::paths::{
    file_name_of, join_of, law_join_file_name, law_join_parent, parent_of, parent_or_dot,
};
use crate::text::lossy_of;

verus! {

/// The run of the encryption of a directory. Where the exchange with index `i`
/// encrypts a directory in it, `below[i]` is the run of that, and where it
/// encrypts a file, `files[i]` are the exchanges of that.
pub ghost struct EncryptionRun {
    /// Where the directory lies.
    pub path: Seq<u8>,
    /// How deep it lies.
    pub depth: usize,
    /// The exchanges of the run.
    pub done: Seq<Exchange<DirectoryDraw>>,
    /// The runs of the directories in it.
    pub below: Seq<EncryptionRun>,
    /// The exchanges of the encryption of the files in it.
    pub files: Seq<Seq<Exchange<Seq<char>>>>,
}

impl EncryptionRun {
    /// Where the run stands after its first `n` exchanges.
    pub open spec fn at(self, n: int) -> Progress<EncryptDirectoryView, Seq<u8>, Seq<char>> {
        directory_encryption_at(self.path, self.depth, self.done.subrange(0, n))
    }

    /// What the run ends with.
    pub open spec fn outcome(self) -> Result<(), FileErrorView> {
        self.at(self.done.len() as int)->Finished_0
    }

    /// Whether `files[i]` are the exchanges of the encryption of the file that the
    /// exchange with index `i` encrypts, whose outcome it was told.
    pub open spec fn runs_file(self, i: int) -> bool {
        self.done[i].asked matches Action::EncryptFile(entry) ==> {
            &&& is_encryption(entry, self.files[i])
            &&& encryption_at(entry, self.files[i]) matches Progress::Finished(r)
            &&& self.done[i].reply == ReplyView::Outcome(r)
        }
    }

    /// Whether this is a run under `key`, from its beginning to its end, and so
    /// is the encryption of the files and directories in it, whose outcomes it
    /// was told.
    pub open spec fn is_run(self, key: Seq<u8>) -> bool
        decreases self,
    {
        &&& is_directory_encryption(self.path, self.depth, key, self.done)
        &&& self.at(self.done.len() as int) is Finished
        &&& self.below.len() == self.done.len()
        &&& self.files.len() == self.done.len()
        &&& forall|i: int| 0 <= i < self.files.len() ==> #[trigger] self.runs_file(i)
        &&& forall|i: int|
            0 <= i < self.below.len() && self.done[i].asked is EncryptDirectory ==> {
                let run = #[trigger] self.below[i];
                &&& self.done[i].asked == ActionView::EncryptDirectory(run.path, run.depth)
                &&& self.done[i].reply == ReplyView::Outcome(run.outcome())
                &&& run.is_run(key)
            }
    }

    /// Whether the run is answered as the directory `plain` answers: it is listed
    /// as it is, and everything in it is found to be what it is.
    pub open spec fn reads_tree(self, plain: Tree) -> bool
        decreases self,
    {
        let children = plain.children();
        &&& plain is Directory
        &&& children.len() <= usize::MAX
        &&& file_name_of(self.path) == Some(plain.name())
        &&& self.done.len() > 0 ==> (self.done[0].reply matches Reply::Entries(Ok(listing))
            ==> listing.entries == paths_in(self.path, children))
        &&& forall|k: int|
            0 <= k < self.below.len() ==> match #[trigger] self.at(k) {
                Progress::Running(EncryptDirectory::Look { at, .. }) => (
                self.done[k].reply matches Reply::Meta(Ok((kind, _))) ==> kind
                    == children[at as int].kind()),
                Progress::Running(EncryptDirectory::EncryptEntry { at, .. }) => (
                self.files[k][0].reply matches Reply::Meta(Ok((kind, _))) ==> kind
                    == children[at as int].kind()),
                Progress::Running(EncryptDirectory::Descend { at, .. }) => self.below[k].reads_tree(
                    children[at as int],
                ),
                _ => true,
            }
    }

    /// Whether the run leaves `hidden` of `plain`: what it has written and renamed
    /// is there as it was written and named, and what it has not touched is there
    /// as it was.
    pub open spec fn leaves(self, key: Seq<u8>, plain: Tree, hidden: Tree) -> bool
        decreases self,
    {
        let children = plain.children();
        let left = hidden.children();
        &&& hidden is Directory
        &&& left.len() == children.len()
        &&& forall|j: int|
            0 <= j < left.len() && (children[j] is Link || children[j] is Other)
                ==> #[trigger] left[j] == children[j]
        &&& forall|k: int|
            0 <= k < self.below.len() ==> match #[trigger] self.at(k) {
                Progress::Running(EncryptDirectory::EncryptEntry { entries, at, .. }) => {
                    &&& left[at as int] is File
                    &&& writes_to(entries[at as int], self.files[k], left[at as int].name())
                    &&& is_encrypted(
                        key,
                        lossy_of(children[at as int].name()),
                        children[at as int]->content,
                        left[at as int]->content,
                    )
                },
                Progress::Running(EncryptDirectory::Descend { at, .. }) => self.below[k].leaves(
                    key,
                    children[at as int],
                    left[at as int],
                ),
                Progress::Running(EncryptDirectory::WriteMarker { sealed, .. }) => hidden->marker
                    == Some(sealed),
                Progress::Running(EncryptDirectory::Rename { target, .. }) => file_name_of(target)
                    == Some(hidden.name()),
                _ => true,
            }
    }

    /// Whether the directory has a name that the cipher accepts and does not lie
    /// too deep, nothing failed in it, but perhaps the reading of single entries,
    /// names for the ciphertexts were free, and so it is in the directories below
    /// it.
    pub open spec fn goes_well(self) -> bool
        decreases self,
    {
        &&& self.depth <= MAX_DEPTH
        &&& file_name_of(self.path) is Some
        &&& cipher_accepts(encode_utf8(directory_name(self.path)).len())
        &&& forall|i: int|
            0 <= i < self.below.len() ==> match (#[trigger] self.done[i]).asked {
                Action::EncryptFile(entry) => file_name_of(entry) is Some && encrypt::goes_well(
                    self.files[i],
                ),
                Action::EncryptDirectory(_, _) => self.below[i].goes_well(),
                _ => !failed(self.done[i].reply) || (self.done[i].reply matches Reply::Entries(
                    Ok(_),
                )),
            }
    }

    /// The path that the directory gets.
    pub open spec fn target(self) -> Seq<u8> {
        self.done.last().asked->Rename_1
    }
}

/// Whether the encryption of `path` with the exchanges `done` writes a file with
/// this name.
pub open spec fn writes_to(
    path: Seq<u8>,
    done: Seq<Exchange<Seq<char>>>,
    name: Seq<u8>,
) -> bool {
    exists|output: Seq<u8>|
        sealed_into(path, output, done.drop_last(), 5) && file_name_of(output) == Some(name)
}

/// Whether `made` is a container of `data` and `name` under `key`, as encryption
/// makes it.
pub open spec fn is_encrypted(
    key: Seq<u8>,
    name: Seq<char>,
    data: Seq<u8>,
    made: Seq<u8>,
) -> bool {
    &&& encode_utf8(name).len() + TAG_LEN <= MAX_METADATA_LEN
    &&& chunk_count(data.len()) < u64::MAX
    &&& exists|salt: Seq<u8>|
        salt.len() == SALT_LEN && #[trigger] container_opens(key, salt, encode_utf8(name), data)
            && made == container(key, salt, encode_utf8(name), data)
}

/// The exchanges before the one with index `i`, and that one.
proof fn lemma_step(run: EncryptionRun, i: int, key: Seq<u8>)
    requires
        is_directory_encryption(run.path, run.depth, key, run.done),
        0 <= i < run.done.len(),
    ensures
        run.at(i) matches Progress::Running(s) && run.done[i].asked == s.pending() && answers(
            s.pending(),
            run.done[i].reply,
        ) && s.can_draw(run.done[i].reply, run.done[i].drawn, key) && run.at(i + 1)
            == s.after_sealing(run.done[i].reply, run.done[i].drawn).0,
    decreases run.done.len(),
{
    let n = run.done.len() as int;
    let before = run.done.drop_last();
    assert(run.done.subrange(0, n) =~= run.done);
    if i == n - 1 {
        assert(run.done.subrange(0, i) =~= before);
    } else {
        let shorter = EncryptionRun { done: before, ..run };
        lemma_step(shorter, i, key);
        assert(before.subrange(0, i) =~= run.done.subrange(0, i));
        assert(before.subrange(0, i + 1) =~= run.done.subrange(0, i + 1));
    }
}

/// Whether the first `n` children are encrypted as `hidden` says.
spec fn children_sealed(key: Seq<u8>, plain: Tree, hidden: Tree, n: int) -> bool {
    forall|j: int|
        0 <= j < n ==> (#[trigger] plain.children()[j]).sealed_as(key, hidden.children()[j])
}

/// What has happened before the state that the run is in after its first `n`
/// exchanges.
spec fn stands_well(run: EncryptionRun, key: Seq<u8>, plain: Tree, hidden: Tree, n: int) -> bool {
    let children = plain.children();
    let paths = paths_in(run.path, children);
    let all = children.len() as int;
    match run.at(n) {
        Progress::Running(EncryptDirectory::List { path, .. }) => path == run.path && n == 0,
        Progress::Running(EncryptDirectory::Look { path, entries, at, .. }) => {
            &&& path == run.path
            &&& entries == paths
            &&& at < all
            &&& children_sealed(key, plain, hidden, at as int)
        },
        Progress::Running(EncryptDirectory::EncryptEntry { path, entries, at, .. }) => {
            &&& path == run.path
            &&& entries == paths
            &&& at < all
            &&& children[at as int] is File
            &&& children_sealed(key, plain, hidden, at as int)
        },
        Progress::Running(EncryptDirectory::Descend { path, entries, at, .. }) => {
            &&& path == run.path
            &&& entries == paths
            &&& at < all
            &&& children[at as int] is Directory
            &&& children_sealed(key, plain, hidden, at as int)
        },
        Progress::Running(EncryptDirectory::Seal { .. }) => false,
        Progress::Running(EncryptDirectory::WriteMarker { path, sealed }) => {
            &&& path == run.path
            &&& children_sealed(key, plain, hidden, all)
            &&& holds_name(Some(sealed), key, plain.name())
        },
        Progress::Running(EncryptDirectory::Rename { path, target }) => {
            &&& path == run.path
            &&& children_sealed(key, plain, hidden, all)
            &&& holds_name(hidden->marker, key, plain.name())
            &&& is_hidden_path(path, target)
        },
        Progress::Finished(Ok(_)) => {
            &&& n > 0
            &&& children_sealed(key, plain, hidden, all)
            &&& holds_name(hidden->marker, key, plain.name())
            &&& run.done[n - 1].asked matches Action::Rename(path, target)
            &&& file_name_of(target) == Some(hidden.name())
            &&& is_hidden_path(run.path, target)
        },
        Progress::Finished(Err(_)) => true,
    }
}

/// Whether `target` is next to `path`, with a random name.
spec fn is_hidden_path(path: Seq<u8>, target: Seq<u8>) -> bool {
    exists|name: Seq<char>| #[trigger]
        is_random_name(name) && target == join_of(parent_or_dot(path), encode_utf8(name))
}

/// What the encryption of a file leaves.
proof fn lemma_file_sealed(
    path: Seq<u8>,
    done: Seq<Exchange<Seq<char>>>,
    key: Seq<u8>,
    plain: Tree,
    left: Tree,
)
    requires
        is_encryption(path, done),
        encryption_at(path, done) matches Progress::Finished(Ok(_)),
        plain is File,
        left is File,
        done[0].reply matches Reply::Meta(Ok((kind, _))) ==> kind == FileKind::File,
        writes_to(path, done, left.name()),
        is_encrypted(key, lossy_of(plain.name()), plain->content, left->content),
    ensures
        plain.sealed_as(key, left),
{
    law_success_sealed(path, done);
    let output = choose|output: Seq<u8>|
        is_output(path, output) && sealed_into(path, output, done.drop_last(), 5);
    let named = choose|named: Seq<u8>|
        sealed_into(path, named, done.drop_last(), 5) && file_name_of(named) == Some(left.name());
    assert(named == output);
    let random = choose|random: Seq<char>| #[trigger]
        is_random_name(random) && output == ciphertext_path_of(parent_or_dot(path), random);
    lemma_random_names(parent_or_dot(path), random);
    law_join_file_name(parent_or_dot(path), encode_utf8(random) + encode_utf8(".enc"@));
    let name = lossy_of(plain.name());
    let salt = choose|salt: Seq<u8>|
        salt.len() == SALT_LEN && #[trigger] container_opens(
            key,
            salt,
            encode_utf8(name),
            plain->content,
        ) && left->content == container(key, salt, encode_utf8(name), plain->content);
    law_container_decrypts(key, salt, name, plain->content);
}

/// One more exchange, where it does not encrypt a directory that went well.
proof fn lemma_exchange(run: EncryptionRun, key: Seq<u8>, plain: Tree, hidden: Tree, k: int)
    requires
        run.is_run(key),
        run.reads_tree(plain),
        run.leaves(key, plain, hidden),
        0 <= k < run.done.len(),
        stands_well(run, key, plain, hidden, k),
        (run.at(k) matches Progress::Running(EncryptDirectory::Descend { at, .. })
            && run.done[k].reply matches Reply::Outcome(Ok(_))) ==> plain.children()[
            run.at(k)->Running_0->Descend_at as int
        ].sealed_as(
            key,
            hidden.children()[run.at(k)->Running_0->Descend_at as int],
        ),
    ensures
        stands_well(run, key, plain, hidden, k + 1),
{
    let children = plain.children();
    let left = hidden.children();
    lemma_step(run, k, key);
    match run.at(k)->Running_0 {
        EncryptDirectory::Look { at, .. } => {
            let j = at as int;
            if children[j] is Link || children[j] is Other {
                assert(left[j] == children[j]);
                assert(children[j].sealed_as(key, left[j]));
            }
        },
        EncryptDirectory::EncryptEntry { entries, at, .. } => {
            let j = at as int;
            if run.done[k].reply matches Reply::Outcome(Ok(_)) {
                assert(run.runs_file(k));
                lemma_file_sealed(entries[j], run.files[k], key, children[j], left[j]);
            }
        },
        _ => {},
    }
}

proof fn lemma_exchanges(run: EncryptionRun, key: Seq<u8>, plain: Tree, hidden: Tree, n: int)
    requires
        run.is_run(key),
        run.reads_tree(plain),
        run.leaves(key, plain, hidden),
        0 <= n <= run.done.len(),
    ensures
        stands_well(run, key, plain, hidden, n),
    decreases run, n,
{
    if n == 0 {
        assert(run.done.subrange(0, 0) =~= Seq::empty());
        assert(run.at(0) == directory_encryption(run.path, run.depth));
    } else {
        let k = n - 1;
        lemma_exchanges(run, key, plain, hidden, k);
        lemma_step(run, k, key);
        if let Progress::Running(EncryptDirectory::Descend { at, .. }) = run.at(k) {
            if run.done[k].reply matches Reply::Outcome(Ok(_)) {
                assert(run.below[k].is_run(key));
                law_tree_is_sealed(
                    run.below[k],
                    key,
                    plain.children()[at as int],
                    hidden.children()[at as int],
                );
            }
        }
        lemma_exchange(run, key, plain, hidden, k);
    }
}

/// An encryption of a whole tree in which nothing fails succeeds.
pub proof fn law_faithful_tree_encryption_succeeds(run: EncryptionRun, key: Seq<u8>)
    requires
        run.is_run(key),
        run.goes_well(),
    ensures
        run.outcome() is Ok,
    decreases run,
{
    let done = run.done;
    assert forall|i: int| 0 <= i < done.len() implies !failed((#[trigger] done[i]).reply) || (
    done[i].reply matches Reply::Entries(Ok(_))) by {
        match done[i].asked {
            Action::EncryptFile(entry) => {
                assert(run.runs_file(i));
                law_faithful_encryption_succeeds(entry, run.files[i]);
            },
            Action::EncryptDirectory(_, _) => {
                assert(run.below[i].is_run(key));
                law_faithful_tree_encryption_succeeds(run.below[i], key);
            },
            _ => {},
        }
    }
    assert(done.subrange(0, done.len() as int) =~= done);
    law_faithful_directory_encryption_succeeds(run.path, run.depth, key, done);
}

/// Encryption hides a whole tree: an encryption that ends well leaves, of
/// everything in the tree, what decrypts to it, and the directory gets a random
/// name in the directory that it lies in.
pub proof fn law_tree_is_sealed(run: EncryptionRun, key: Seq<u8>, plain: Tree, hidden: Tree)
    requires
        run.is_run(key),
        run.outcome() is Ok,
        run.reads_tree(plain),
        run.leaves(key, plain, hidden),
    ensures
        plain.sealed_as(key, hidden),
        run.done.last().asked is Rename,
        file_name_of(run.target()) == Some(hidden.name()),
        parent_of(run.target()) == Some(parent_or_dot(run.path)),
    decreases run, run.done.len() + 1,
{
    let n = run.done.len() as int;
    lemma_exchanges(run, key, plain, hidden, n);
    let name = choose|name: Seq<char>| #[trigger]
        is_random_name(name) && run.target() == join_of(
            parent_or_dot(run.path),
            encode_utf8(name),
        );
    lemma_random_names(Seq::empty(), name);
    law_join_file_name(parent_or_dot(run.path), encode_utf8(name));
    law_join_parent(run.path, encode_utf8(name));
}

} // verus!

//! What comes back of a directory tree that is encrypted and decrypted again.
//!
//! Trees are spoken of as they lie in a file system. What is said of their
//! content is what the container format says, and what is said of the steps is
//! what the operations ask for when they are answered as such a tree answers.

use vstd::prelude::*;
use vstd::utf8::{decode_utf8_encode_utf8, encode_utf8, encode_utf8_valid_utf8};
use crate::crypto::container::{body_of, decrypts_to, header_of};
use crate::crypto::key::is_random_name;
use crate::fsops::action::{
    failed, succeeded, ActionView, Exchange, Listing, Progress, Reply, ReplyView,
};
use crate::fsops::decrypt::{
    decryption_at, found_name, is_decryption, is_first_free, law_faithful_decryption_succeeds,
    law_restored_under_its_name, law_success_restores, restored_to,
};
use crate::fsops::decrypt_dir::{
    directory_decryption, is_directory_decryption, marker_of, visiting, DecryptDirectory,
};
use crate::fsops::encrypt_tree::{law_tree_is_sealed, EncryptionRun};
use crate::fsops::hidden_tree::{
    any_name, is_container_name, lemma_listed, lemma_random_names, lemma_rearranged_count, paths_in,
    Tree,
};
use crate::fsops::tree::{lemma_step, DirectoryRun};
use crate::paths::{
    file_name_of, is_plain_name, join_of, law_join_file_name, law_join_parent, law_join_twice,
    parent_of, parent_or_dot,
};
use crate::text::lossy_of;

verus! {

/// The content that reading `container` under `key` writes out.
pub open spec fn content_of(key: Seq<u8>, container: Seq<u8>) -> Seq<u8> {
    let header = header_of(key, container)->Ok_0;
    body_of(key, header.salt, 1, Seq::empty(), container.skip(header.used as int)).written
}

/// Whether the exchanges `done` are answered as `container` answers, where
/// nothing fails and nothing stands in the place of the file.
pub open spec fn reads_container(
    done: Seq<Exchange<Seq<char>>>,
    key: Seq<u8>,
    container: Seq<u8>,
) -> bool {
    &&& forall|i: int| 0 <= i < done.len() ==> !failed((#[trigger] done[i]).reply)
    &&& done.len() > 1 ==> (header_of(key, container) matches Ok(header) ==> found_name(done)
        == header.name)
    &&& done.len() > 2 ==> done[2].reply == ReplyView::Answer(false)
}

impl DirectoryRun {
    /// The path that the directory gets back.
    pub open spec fn target(self) -> Seq<u8> {
        self.done[3].asked->Rename_1
    }

    /// Whether the run is answered as a directory answers that lies there like
    /// `hidden`, where nothing fails and nothing stands in the place of anything
    /// that is restored. The directory is listed in the order of `hidden`.
    pub open spec fn reads_tree(self, key: Seq<u8>, hidden: Tree) -> bool
        decreases self,
    {
        let sealed = hidden.children();
        &&& hidden is Directory
        &&& sealed.len() <= usize::MAX
        &&& self.done.len() >= 7
        &&& self.done[0].reply == ReplyView::Answer(true)
        &&& self.done[1].reply == ReplyView::Bytes(Ok(hidden->marker->Some_0))
        &&& self.done[2].reply == ReplyView::Answer(false)
        &&& !failed(self.done[3].reply)
        &&& self.done[4].reply == ReplyView::Answer(true)
        &&& !failed(self.done[5].reply)
        &&& self.done[6].reply == ReplyView::Entries(
            Ok(Listing { entries: paths_in(self.target(), sealed), failed: Seq::empty() }),
        )
        &&& forall|k: int|
            7 <= k < self.below.len() ==> match #[trigger] self.at(k, key) {
                Progress::Running(DecryptDirectory::Look { at, .. }) => (
                self.done[k].reply matches Reply::Meta(Ok((kind, _))) && kind
                    == sealed[at as int].kind()),
                Progress::Running(DecryptDirectory::DecryptEntry { at, .. }) => reads_container(
                    self.files[k],
                    key,
                    sealed[at as int]->content,
                ),
                Progress::Running(DecryptDirectory::Descend { at, .. }) => self.below[k].reads_tree(
                    key,
                    sealed[at as int],
                ),
                _ => true,
            }
    }

    /// Whether the exchange with index `k` decrypts the child with index `j` as a
    /// file.
    pub open spec fn tries_file(self, key: Seq<u8>, k: int, j: int) -> bool {
        &&& 0 <= k < self.done.len()
        &&& self.at(k, key) matches Progress::Running(DecryptDirectory::DecryptEntry { at, .. })
        &&& at == j
    }

    /// Whether the exchange with index `k` decrypts the child with index `j` as a
    /// directory.
    pub open spec fn tries_directory(self, key: Seq<u8>, k: int, j: int) -> bool {
        &&& 0 <= k < self.done.len()
        &&& self.at(k, key) matches Progress::Running(DecryptDirectory::Descend { at, .. })
        &&& at == j
    }

    /// Whether the run tries to decrypt `child`, which has the index `j`, if it is
    /// a file or a directory.
    pub open spec fn visits(self, key: Seq<u8>, child: Tree, j: int) -> bool {
        &&& child is File ==> exists|k: int| self.tries_file(key, k, j)
        &&& child is Directory ==> exists|k: int| self.tries_directory(key, k, j)
    }

    /// Whether the exchange with index `k` has put the content of the container
    /// `random` where it belongs: under this name, in the directory that this run
    /// has restored. The container is deleted.
    pub open spec fn restores_file(self, k: int, random: Seq<u8>, name: Seq<u8>) -> bool {
        &&& exists|place: Seq<u8>| #[trigger]
            restored_to(place, self.files[k].drop_last()) && file_name_of(place) == Some(name)
                && parent_of(place) == Some(self.target())
        &&& self.files[k].last().asked == ActionView::SecureDelete(join_of(self.target(), random))
        &&& succeeded(self.files[k].last().reply)
    }

    /// Whether the run gives `plain` back of `hidden`: the directory gets its name
    /// in the directory that it lies in, and loses its marker; every file in it
    /// gets its name and its content, and every directory in it is given back.
    pub open spec fn gives_back(self, key: Seq<u8>, plain: Tree, hidden: Tree) -> bool
        decreases self,
    {
        let children = plain.children();
        let sealed = hidden.children();
        &&& self.done.len() >= 7
        &&& self.done[3].asked == ActionView::Rename(self.path, self.target())
        &&& !failed(self.done[3].reply)
        &&& file_name_of(self.target()) == Some(plain.name())
        &&& parent_of(self.target()) == Some(parent_or_dot(self.path))
        &&& self.done[5].asked == ActionView::SecureDelete(marker_of(self.target()))
        &&& !failed(self.done[5].reply)
        &&& forall|j: int|
            0 <= j < children.len() ==> self.visits(key, #[trigger] children[j], j)
        &&& forall|k: int|
            0 <= k < self.below.len() ==> match #[trigger] self.at(k, key) {
                Progress::Running(DecryptDirectory::DecryptEntry { at, .. }) => {
                    &&& at < children.len()
                    &&& children[at as int] is File
                    &&& self.restores_file(
                        k,
                        sealed[at as int].name(),
                        children[at as int].name(),
                    )
                    &&& content_of(key, sealed[at as int]->content)
                        == children[at as int]->content
                },
                Progress::Running(DecryptDirectory::Descend { at, .. }) => {
                    &&& at < children.len()
                    &&& children[at as int] is Directory
                    &&& self.below[k].gives_back(key, children[at as int], sealed[at as int])
                },
                _ => true,
            }
    }
}

/// What a container in a restored directory is decrypted to.
proof fn lemma_file(
    outer: Seq<u8>,
    parent: Seq<u8>,
    random: Seq<u8>,
    key: Seq<u8>,
    plain: Tree,
    container: Seq<u8>,
    done: Seq<Exchange<Seq<char>>>,
)
    requires
        is_plain_name(parent),
        is_container_name(random),
        plain is File,
        plain.is_plain(),
        decrypts_to(key, container, lossy_of(plain.name()), plain->content),
        is_decryption(join_of(join_of(outer, parent), random), done),
        decryption_at(join_of(join_of(outer, parent), random), done) is Finished,
        reads_container(done, key, container),
    ensures
        decryption_at(join_of(join_of(outer, parent), random), done) matches Progress::Finished(
            Ok(_),
        ),
        exists|place: Seq<u8>| #[trigger]
            restored_to(place, done.drop_last()) && file_name_of(place) == Some(plain.name())
                && parent_of(place) == Some(join_of(outer, parent)),
        done.last().asked == ActionView::SecureDelete(join_of(join_of(outer, parent), random)),
        succeeded(done.last().reply),
        content_of(key, container) == plain->content,
{
    reveal(decrypts_to);
    let dir = join_of(outer, parent);
    let path = join_of(dir, random);
    let name = plain.name();
    let drawn = choose|drawn: Seq<char>| #[trigger]
        is_random_name(drawn) && random == encode_utf8(drawn) + encode_utf8(".enc"@);
    lemma_random_names(dir, drawn);
    decode_utf8_encode_utf8(name);
    law_join_file_name(Seq::empty(), name);
    assert(join_of(Seq::empty(), name) =~= name);
    law_faithful_decryption_succeeds(path, done);
    law_success_restores(path, done);
    law_restored_under_its_name(path, done);
    let (place, taken) = choose|place: Seq<u8>, taken: u64|
        restored_to(place, done.drop_last()) && #[trigger] is_first_free(path, place, taken, done);
    if taken > 0 {
        assert(done[2int + 0].reply == ReplyView::Answer(true));
    }
    law_join_twice(outer, parent, random);
    law_join_twice(outer, parent, name);
    law_join_file_name(dir, name);
    assert(place == join_of(dir, name));
}

/// Whether the run is at an entry of the directory after its first `k` exchanges.
spec fn at_entry(run: DirectoryRun, k: int, key: Seq<u8>) -> bool {
    match run.at(k, key) {
        Progress::Running(s) => s is Look || s is Descend || s is DecryptEntry,
        Progress::Finished(_) => false,
    }
}

/// The first exchanges: the directory gets its name back, and is listed.
proof fn lemma_front(run: DirectoryRun, key: Seq<u8>, plain: Tree, hidden: Tree)
    requires
        run.is_run(key),
        plain.is_plain(),
        plain.sealed_as(key, hidden),
        run.reads_tree(key, hidden),
    ensures
        plain is Directory,
        run.target() == join_of(parent_or_dot(run.path), plain.name()),
        run.done[3].asked == ActionView::Rename(run.path, run.target()),
        run.done[5].asked == ActionView::SecureDelete(marker_of(run.target())),
        run.at(7, key) == visiting(
            run.depth,
            paths_in(run.target(), hidden.children()),
            0,
        ).next,
        run.troubles_upto(7, key).len() == 0,
        run.restored_upto(7, key) == 0,
        forall|k: int| 0 <= k < 7 ==> !at_entry(run, k, key),
{
    let name = plain.name();
    assert(run.done.subrange(0, 0) =~= Seq::empty());
    assert(run.at(0, key) == directory_decryption(run.path, run.depth).next);
    decode_utf8_encode_utf8(name);
    encode_utf8_valid_utf8(lossy_of(name));
    law_join_file_name(Seq::empty(), name);
    assert(join_of(Seq::empty(), name) =~= name);
    lemma_step(run, 0, key);
    assert(run.troubles_upto(0, key).len() == 0);
    assert(run.troubles_upto(1, key).len() == 0);
    lemma_step(run, 1, key);
    assert(run.troubles_upto(2, key).len() == 0);
    lemma_step(run, 2, key);
    assert(run.troubles_upto(3, key).len() == 0);
    lemma_step(run, 3, key);
    assert(run.troubles_upto(4, key).len() == 0);
    lemma_step(run, 4, key);
    assert(run.troubles_upto(5, key).len() == 0);
    lemma_step(run, 5, key);
    assert(run.troubles_upto(6, key).len() == 0);
    lemma_step(run, 6, key);
    assert(run.troubles_upto(7, key).len() == 0);
    assert(run.restored_upto(0, key) == 0);
    assert(run.restored_upto(1, key) == 0);
    assert(run.restored_upto(2, key) == 0);
    assert(run.restored_upto(3, key) == 0);
    assert(run.restored_upto(4, key) == 0);
    assert(run.restored_upto(5, key) == 0);
    assert(run.restored_upto(6, key) == 0);
    assert forall|k: int| 0 <= k < 7 implies !at_entry(run, k, key) by {
        assert(k == 0 || k == 1 || k == 2 || k == 3 || k == 4 || k == 5 || k == 6);
    }
}

/// Whether the run has restored everything in the first `at` children.
spec fn restored_children(
    run: DirectoryRun,
    key: Seq<u8>,
    plain: Tree,
    n: int,
    at: int,
) -> bool {
    &&& run.troubles_upto(n, key).len() == 0
    &&& run.restored_upto(n, key) == plain.count_upto(any_name(), at)
    &&& forall|j: int| 0 <= j < at ==> run.visits(key, #[trigger] plain.children()[j], j)
}

/// Where the run stands after its first `n` exchanges.
spec fn stands_well(run: DirectoryRun, key: Seq<u8>, plain: Tree, hidden: Tree, n: int) -> bool {
    let children = plain.children();
    let paths = paths_in(run.target(), hidden.children());
    match run.at(n, key) {
        Progress::Running(DecryptDirectory::Look { depth, entries, at }) => {
            &&& entries == paths
            &&& at < children.len()
            &&& restored_children(run, key, plain, n, at as int)
        },
        Progress::Running(DecryptDirectory::DecryptEntry { depth, entries, at }) => {
            &&& entries == paths
            &&& at < children.len()
            &&& children[at as int] is File
            &&& restored_children(run, key, plain, n, at as int)
        },
        Progress::Running(DecryptDirectory::Descend { depth, entries, at }) => {
            &&& entries == paths
            &&& at < children.len()
            &&& children[at as int] is Directory
            &&& restored_children(run, key, plain, n, at as int)
        },
        Progress::Finished(Ok(_)) => restored_children(
            run,
            key,
            plain,
            n,
            children.len() as int,
        ),
        _ => false,
    }
}

/// What the exchange with index `k` does with a file.
proof fn lemma_file_entry(run: DirectoryRun, key: Seq<u8>, plain: Tree, hidden: Tree, k: int)
    requires
        run.is_run(key),
        plain.is_plain(),
        plain.sealed_as(key, hidden),
        run.reads_tree(key, hidden),
        7 <= k < run.done.len(),
        run.at(k, key) matches Progress::Running(s) && s is DecryptEntry,
        stands_well(run, key, plain, hidden, k),
    ensures
        run.done[k].reply matches Reply::Outcome(Ok(_)),
        ({
            let at = run.at(k, key)->Running_0->DecryptEntry_at as int;
            &&& run.restores_file(k, hidden.children()[at].name(), plain.children()[at].name())
            &&& content_of(key, hidden.children()[at]->content) == plain.children()[at]->content
        }),
{
    lemma_front(run, key, plain, hidden);
    lemma_step(run, k, key);
    assert(run.runs_file(k));
    let at = run.at(k, key)->Running_0->DecryptEntry_at as int;
    let child = plain.children()[at];
    let sealed = hidden.children()[at];
    assert(child.sealed_as(key, sealed));
    assert(child.is_plain());
    lemma_file(
        parent_or_dot(run.path),
        plain.name(),
        sealed.name(),
        key,
        child,
        sealed->content,
        run.files[k],
    );
}

/// What the exchange with index `k` does with a directory.
proof fn lemma_directory_entry(run: DirectoryRun, key: Seq<u8>, plain: Tree, hidden: Tree, k: int)
    requires
        run.is_run(key),
        plain.is_plain(),
        plain.sealed_as(key, hidden),
        run.reads_tree(key, hidden),
        7 <= k < run.done.len(),
        run.at(k, key) matches Progress::Running(s) && s is Descend,
        stands_well(run, key, plain, hidden, k),
    ensures
        ({
            let at = run.at(k, key)->Running_0->Descend_at as int;
            let below = run.below[k];
            &&& run.descends(k)
            &&& below.is_run(key)
            &&& plain.children()[at].is_plain()
            &&& plain.children()[at].sealed_as(key, hidden.children()[at])
            &&& below.reads_tree(key, hidden.children()[at])
            &&& run.done[k].reply == ReplyView::Outcome(below.outcome(key))
            &&& below.path == join_of(run.target(), hidden.children()[at].name())
        }),
{
    lemma_front(run, key, plain, hidden);
    lemma_step(run, k, key);
    let at = run.at(k, key)->Running_0->Descend_at as int;
    let child = plain.children()[at];
    let below = run.below[k];
    assert(child.sealed_as(key, hidden.children()[at]));
    assert(child.is_plain());
    assert(run.descends(k));
    assert(below.is_run(key));
}

/// The entry that is looked at is the next one to restore, or is passed over.
proof fn lemma_look(run: DirectoryRun, key: Seq<u8>, plain: Tree, hidden: Tree, k: int)
    requires
        run.is_run(key),
        plain.is_plain(),
        plain.sealed_as(key, hidden),
        run.reads_tree(key, hidden),
        7 <= k < run.done.len(),
        run.at(k, key) matches Progress::Running(s) && s is Look,
        stands_well(run, key, plain, hidden, k),
    ensures
        stands_well(run, key, plain, hidden, k + 1),
{
    let children = plain.children();
    let entries = run.at(k, key)->Running_0->Look_entries;
    let j = run.at(k, key)->Running_0->Look_at as int;
    let child = children[j];
    let sealed = hidden.children()[j];
    lemma_front(run, key, plain, hidden);
    lemma_step(run, k, key);
    assert(child.sealed_as(key, sealed));
    assert(!run.descends(k));
    assert(entries[j] == join_of(run.target(), sealed.name()));
    assert(child.kind() == sealed.kind());
    assert(run.troubles_upto(k + 1, key) =~= run.troubles_upto(k, key) + run.turn(k, key).troubles);
    if child is File {
        let drawn = choose|drawn: Seq<char>| #[trigger]
            is_random_name(drawn) && sealed.name() == encode_utf8(drawn) + encode_utf8(".enc"@);
        lemma_random_names(run.target(), drawn);
    } else if !(child is Directory) {
        assert(child.count_upto(any_name(), child.children().len() as int) == 0);
        assert(run.visits(key, child, j));
    }
}

/// The file that is decrypted is restored.
proof fn lemma_restore_file(run: DirectoryRun, key: Seq<u8>, plain: Tree, hidden: Tree, k: int)
    requires
        is_directory_decryption(run.path, run.depth, key, run.done),
        run.below.len() == run.done.len(),
        plain is Directory,
        plain.children().len() == hidden.children().len() <= usize::MAX,
        0 <= k < run.done.len(),
        stands_well(run, key, plain, hidden, k),
        run.done[k].reply matches Reply::Outcome(Ok(_)),
        run.at(k, key) matches Progress::Running(s) && s is DecryptEntry,
    ensures
        stands_well(run, key, plain, hidden, k + 1),
{
    let j = run.at(k, key)->Running_0->DecryptEntry_at as int;
    let child = plain.children()[j];
    lemma_step(run, k, key);
    assert(!run.descends(k));
    assert(child.count_upto(any_name(), child.children().len() as int) == 1);
    assert(plain.count_upto(any_name(), j + 1) == plain.count_upto(any_name(), j) + 1);
    assert(run.tries_file(key, k, j));
    assert(run.visits(key, child, j));
    assert(restored_children(run, key, plain, k + 1, j + 1));
}

/// The directory that is decrypted is restored.
proof fn lemma_restore_directory(
    run: DirectoryRun,
    key: Seq<u8>,
    plain: Tree,
    hidden: Tree,
    k: int,
)
    requires
        is_directory_decryption(run.path, run.depth, key, run.done),
        run.below.len() == run.done.len(),
        plain is Directory,
        plain.children().len() == hidden.children().len() <= usize::MAX,
        0 <= k < run.done.len(),
        stands_well(run, key, plain, hidden, k),
        run.done[k].reply matches Reply::Outcome(Ok(_)),
        run.at(k, key) matches Progress::Running(DecryptDirectory::Descend { at, .. })
            && run.below[k].restored(key) == plain.children()[at as int].files(),
        run.below[k].troubles(key).len() == 0,
    ensures
        stands_well(run, key, plain, hidden, k + 1),
{
    let j = run.at(k, key)->Running_0->Descend_at as int;
    lemma_step(run, k, key);
    assert(run.descends(k));
    assert(plain.count_upto(any_name(), j + 1) == plain.count_upto(any_name(), j)
        + plain.children()[j].files());
    assert(run.tries_directory(key, k, j));
    assert(run.visits(key, plain.children()[j], j));
    assert(restored_children(run, key, plain, k + 1, j + 1));
}

proof fn lemma_entries(run: DirectoryRun, key: Seq<u8>, plain: Tree, hidden: Tree, n: int)
    requires
        run.is_run(key),
        plain.is_plain(),
        plain.sealed_as(key, hidden),
        run.reads_tree(key, hidden),
        7 <= n <= run.done.len(),
    ensures
        stands_well(run, key, plain, hidden, n),
    decreases run, n,
{
    if n == 7 {
        lemma_front(run, key, plain, hidden);
    } else {
        let k = n - 1;
        lemma_entries(run, key, plain, hidden, k);
        lemma_step(run, k, key);
        match run.at(k, key) {
            Progress::Running(DecryptDirectory::Look { .. }) => {
                lemma_look(run, key, plain, hidden, k);
            },
            Progress::Running(DecryptDirectory::DecryptEntry { .. }) => {
                lemma_file_entry(run, key, plain, hidden, k);
                lemma_restore_file(run, key, plain, hidden, k);
            },
            Progress::Running(DecryptDirectory::Descend { at, .. }) => {
                let child = plain.children()[at as int];
                lemma_directory_entry(run, key, plain, hidden, k);
                law_tree_comes_back(run.below[k], key, child, hidden.children()[at as int]);
                lemma_restore_directory(run, key, plain, hidden, k);
            },
            _ => {},
        }
    }
}

/// A directory tree comes back. Where a tree lies encrypted, and its decryption
/// is answered as that tree answers, nothing fails and nothing stands in the
/// place of what is restored: then the decryption ends well, nothing is recorded
/// as gone wrong, all files are counted as restored, and everything in the tree
/// gets its name, its place and its content back.
pub proof fn law_tree_comes_back(run: DirectoryRun, key: Seq<u8>, plain: Tree, hidden: Tree)
    requires
        run.is_run(key),
        plain.is_plain(),
        plain.sealed_as(key, hidden),
        run.reads_tree(key, hidden),
    ensures
        run.outcome(key) is Ok,
        run.troubles(key).len() == 0,
        run.restored(key) == plain.files(),
        run.gives_back(key, plain, hidden),
    decreases run, run.done.len() + 1,
{
    lemma_front(run, key, plain, hidden);
    let n = run.done.len() as int;
    let children = plain.children();
    let sealed = hidden.children();
    lemma_entries(run, key, plain, hidden, n);
    law_join_file_name(parent_or_dot(run.path), plain.name());
    law_join_parent(run.path, plain.name());
    assert forall|k: int| 0 <= k < run.below.len() implies match #[trigger] run.at(k, key) {
        Progress::Running(DecryptDirectory::DecryptEntry { at, .. }) => {
            &&& at < children.len()
            &&& children[at as int] is File
            &&& run.restores_file(k, sealed[at as int].name(), children[at as int].name())
            &&& content_of(key, sealed[at as int]->content) == children[at as int]->content
        },
        Progress::Running(DecryptDirectory::Descend { at, .. }) => {
            &&& at < children.len()
            &&& children[at as int] is Directory
            &&& run.below[k].gives_back(key, children[at as int], sealed[at as int])
        },
        _ => true,
    } by {
        if k < 7 {
            assert(!at_entry(run, k, key));
        } else {
            lemma_entries(run, key, plain, hidden, k);
            match run.at(k, key) {
                Progress::Running(DecryptDirectory::DecryptEntry { at, .. }) => {
                    lemma_file_entry(run, key, plain, hidden, k);
                },
                Progress::Running(DecryptDirectory::Descend { at, .. }) => {
                    lemma_directory_entry(run, key, plain, hidden, k);
                    law_tree_comes_back(
                        run.below[k],
                        key,
                        children[at as int],
                        sealed[at as int],
                    );
                },
                _ => {},
            }
        }
    }
}

/// A directory tree survives encryption and decryption. An encryption that ends
/// well leaves a tree; when that is decrypted under the same key, listed in
/// whatever order, nothing fails and nothing stands in the place of what is
/// restored, then the tree comes back: the directory under its name, in the
/// directory that it was in, and everything in it as it was, in the order in
/// which it was listed.
pub proof fn law_tree_round_trip(
    encryption: EncryptionRun,
    decryption: DirectoryRun,
    key: Seq<u8>,
    plain: Tree,
    hidden: Tree,
    listed: Tree,
) -> (back: Tree)
    requires
        plain.is_plain(),
        encryption.is_run(key),
        encryption.outcome() is Ok,
        encryption.reads_tree(plain),
        encryption.leaves(key, plain, hidden),
        hidden.rearranged(listed),
        decryption.is_run(key),
        decryption.path == encryption.target(),
        decryption.reads_tree(key, listed),
    ensures
        plain.rearranged(back),
        decryption.gives_back(key, back, listed),
        decryption.outcome(key) is Ok,
        decryption.troubles(key).len() == 0,
        decryption.restored(key) == plain.files(),
        file_name_of(decryption.target()) == file_name_of(encryption.path),
        parent_of(decryption.target()) == Some(parent_or_dot(encryption.path)),
{
    law_tree_is_sealed(encryption, key, plain, hidden);
    let back = lemma_listed(plain, key, hidden, listed);
    lemma_rearranged_count(plain, back, any_name());
    law_tree_comes_back(decryption, key, back, listed);
    back
}

} // verus!

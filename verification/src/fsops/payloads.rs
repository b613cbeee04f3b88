//! How many payloads there are in a directory tree: counted before its
//! decryption, and accounted for by it.

use vstd::prelude::*;
use vstd::utf8::{encode_utf8, is_ascii_chars_encode_utf8};
use crate::fsops::action::{FileKind, Progress, Reply};
use crate::fsops::decrypt_dir::{directory_decryption, marker_of, DecryptDirectory};
use crate::fsops::hidden_tree::{lemma_rearranged_count, paths_in, payload_name, Tree};
use crate::fsops::stats::{is_payload, TreeEntry, DIR_MARKER};
use crate::fsops::tree::{
    file_troubles, is_payload_name, law_every_payload_is_accounted, lemma_step, DirectoryRun,
};
use crate::paths::{file_name_of, is_plain_name, join_of, law_join_file_name, SLASH};

verus! {

impl Tree {
    /// What a walk through the tree at `path` comes by, and whether it is a file:
    /// the tree itself, the file that holds its name, and the first `n` children.
    pub open spec fn walk_upto(self, path: Seq<u8>, n: int) -> Seq<(Seq<u8>, bool)>
        decreases self, n,
    {
        match self {
            Tree::Directory { marker, children, .. } => if n <= 0 || n > children.len() {
                if marker is Some {
                    seq![(path, false), (marker_of(path), true)]
                } else {
                    seq![(path, false)]
                }
            } else {
                self.walk_upto(path, n - 1) + children[n - 1].walk_upto(
                    join_of(path, children[n - 1].name()),
                    children[n - 1].children().len() as int,
                )
            },
            _ => seq![(path, self is File)],
        }
    }

    /// What a walk through the tree at `path` comes by.
    pub open spec fn walk(self, path: Seq<u8>) -> Seq<(Seq<u8>, bool)> {
        self.walk_upto(path, self.children().len() as int)
    }
}

/// Whether `entries` are what a walk came by.
pub open spec fn is_walk(entries: Seq<TreeEntry>, walk: Seq<(Seq<u8>, bool)>) -> bool {
    &&& entries.len() == walk.len()
    &&& forall|i: int|
        0 <= i < walk.len() ==> (#[trigger] entries[i]).path@ == walk[i].0 && entries[i].is_file
            == walk[i].1
}

/// The payloads among `entries`.
spec fn payloads_of(entries: Seq<TreeEntry>) -> Seq<TreeEntry> {
    entries.filter(|entry: TreeEntry| is_payload(entry))
}

/// The number of payloads among what a walk came by.
spec fn walked_payloads(walk: Seq<(Seq<u8>, bool)>) -> nat
    decreases walk.len(),
{
    if walk.len() == 0 {
        0
    } else {
        walked_payloads(walk.drop_last()) + if walk.last().1 && is_payload_name(walk.last().0) {
            1nat
        } else {
            0
        }
    }
}

proof fn lemma_walked_add(a: Seq<(Seq<u8>, bool)>, b: Seq<(Seq<u8>, bool)>)
    ensures
        walked_payloads(a + b) == walked_payloads(a) + walked_payloads(b),
    decreases b.len(),
{
    if b.len() == 0 {
        assert(a + b =~= a);
    } else {
        assert((a + b).drop_last() =~= a + b.drop_last());
        lemma_walked_add(a, b.drop_last());
    }
}

proof fn lemma_filtered(entries: Seq<TreeEntry>, walk: Seq<(Seq<u8>, bool)>)
    requires
        is_walk(entries, walk),
    ensures
        payloads_of(entries).len() == walked_payloads(walk),
    decreases walk.len(),
{
    reveal(Seq::filter);
    if walk.len() > 0 {
        assert(entries.last() == entries[walk.len() - 1]);
        lemma_filtered(entries.drop_last(), walk.drop_last());
    }
}

/// The name of the file that holds the name of a directory.
proof fn lemma_marker_name(dir: Seq<u8>)
    ensures
        is_plain_name(encode_utf8(DIR_MARKER@)),
        file_name_of(marker_of(dir)) == Some(encode_utf8(DIR_MARKER@)),
{
    let name = encode_utf8(DIR_MARKER@);
    reveal_strlit(".dirname.enc");
    is_ascii_chars_encode_utf8(DIR_MARKER@);
    assert(name.len() == 12);
    assert forall|i: int| 0 <= i < name.len() implies name[i] != SLASH by {
        assert(DIR_MARKER@[i] as u8 == name[i]);
    }
    law_join_file_name(dir, name);
}

/// A name names a payload wherever it stands.
proof fn lemma_payload_anywhere(dir: Seq<u8>, name: Seq<u8>)
    requires
        is_plain_name(name),
    ensures
        is_payload_name(join_of(dir, name)) == is_payload_name(name),
        file_name_of(join_of(dir, name)) == Some(name),
{
    law_join_file_name(dir, name);
    law_join_file_name(Seq::empty(), name);
    assert(join_of(Seq::empty(), name) =~= name);
}

proof fn lemma_walk(tree: Tree, path: Seq<u8>, n: int)
    requires
        tree.is_named(),
        0 <= n <= tree.children().len(),
        tree is File ==> is_payload_name(path) == is_payload_name(tree.name()),
    ensures
        walked_payloads(tree.walk_upto(path, n)) == tree.count_upto(payload_name(), n),
    decreases tree, n,
{
    let walk = tree.walk_upto(path, n);
    if n > 0 {
        let child = tree.children()[n - 1];
        let inner = join_of(path, child.name());
        assert(child.is_named());
        lemma_payload_anywhere(path, child.name());
        lemma_walk(tree, path, n - 1);
        lemma_walk(child, inner, child.children().len() as int);
        lemma_walked_add(tree.walk_upto(path, n - 1), child.walk(inner));
    } else {
        lemma_marker_name(path);
        let first = seq![(path, tree is File)];
        assert(first.drop_last() =~= Seq::empty());
        assert(walked_payloads(first.drop_last()) == 0);
        assert(walked_payloads(first) == tree.count_upto(payload_name(), n));
        if walk.len() == 2 {
            assert(walk.drop_last() =~= first);
        } else {
            assert(walk =~= first);
        }
    }
}

/// The payloads that a walk through a directory tree counts are the payloads in
/// the tree.
pub proof fn law_walk_counts_payloads(tree: Tree, path: Seq<u8>, entries: Seq<TreeEntry>)
    requires
        tree is Directory,
        tree.is_named(),
        is_walk(entries, tree.walk(path)),
    ensures
        entries.filter(|entry: TreeEntry| is_payload(entry)).len() == tree.payloads(),
{
    lemma_filtered(entries, tree.walk(path));
    lemma_walk(tree, path, tree.children().len() as int);
}

/// Whether `entries` are the paths of `children` in the directory `dir`, and where
/// `m` is an index, the file that holds the name of the directory stands there.
pub open spec fn is_listing(
    dir: Seq<u8>,
    children: Seq<Tree>,
    m: int,
    entries: Seq<Seq<u8>>,
) -> bool {
    &&& entries.len() <= usize::MAX
    &&& if m < 0 {
        entries == paths_in(dir, children)
    } else {
        &&& m <= children.len()
        &&& entries == paths_in(dir, children).insert(m, marker_of(dir))
        &&& forall|j: int|
            0 <= j < children.len() ==> (#[trigger] children[j]).name() != encode_utf8(DIR_MARKER@)
    }
}

impl DirectoryRun {
    /// Whether the run finds the directory `tree`: it is listed whole, with or
    /// without the file that holds its name, and everything in it is found to be
    /// what it is. Whatever else is asked for may fail.
    pub open spec fn finds_tree(self, key: Seq<u8>, tree: Tree) -> bool
        decreases self,
    {
        let children = tree.children();
        &&& tree is Directory
        &&& forall|k: int|
            0 <= k < self.below.len() ==> match #[trigger] self.at(k, key) {
                Progress::Running(DecryptDirectory::List { current, .. }) => {
                    &&& self.done[k].reply matches Reply::Entries(Ok(listing))
                    &&& exists|m: int| is_listing(current, children, m, listing.entries)
                },
                Progress::Running(DecryptDirectory::Look { entries, at, .. }) => {
                    &&& self.done[k].reply matches Reply::Meta(Ok((kind, _)))
                    &&& is_found(children, file_name_of(entries[at as int]), kind)
                },
                Progress::Running(DecryptDirectory::Descend { entries, at, .. }) => forall|j: int|
                    0 <= j < children.len() && file_name_of(entries[at as int]) == Some(
                        children[j].name(),
                    ) ==> self.below[k].finds_tree(key, #[trigger] children[j]),
                _ => true,
            }
    }
}

/// Whether something with this name in a directory that holds `children` can be
/// of this kind: of the kind of the child with that name, or a file, if it holds
/// the name of the directory.
pub open spec fn is_found(children: Seq<Tree>, name: Option<Seq<u8>>, kind: FileKind) -> bool {
    &&& forall|j: int|
        0 <= j < children.len() && name == Some(children[j].name()) ==> kind == (
        #[trigger] children[j]).kind()
    &&& name == Some(encode_utf8(DIR_MARKER@)) && (forall|j: int|
        0 <= j < children.len() ==> name != Some((#[trigger] children[j]).name())) ==> kind
        == FileKind::File
}

/// The number of children before the entry with index `at`, where the file that
/// holds the name of the directory stands at `m`.
spec fn before(m: int, at: int) -> int {
    if 0 <= m < at {
        at - 1
    } else {
        at
    }
}

/// Whether the payloads that the run has found after its first `n` exchanges are
/// those in the children before the entry with index `at`.
spec fn found_before(
    run: DirectoryRun,
    tree: Tree,
    n: int,
    dir: Seq<u8>,
    m: int,
    entries: Seq<Seq<u8>>,
    at: int,
) -> bool {
    &&& is_listing(dir, tree.children(), m, entries)
    &&& run.payloads_upto(n) == tree.count_upto(payload_name(), before(m, at))
}

/// What the run has found after its first `n` exchanges.
spec fn found_upto(run: DirectoryRun, key: Seq<u8>, tree: Tree, n: int) -> bool {
    match run.at(n, key) {
        Progress::Running(DecryptDirectory::Look { depth, entries, at }) => {
            &&& depth == run.depth
            &&& at < entries.len()
            &&& exists|dir: Seq<u8>, m: int| found_before(run, tree, n, dir, m, entries, at as int)
        },
        Progress::Running(DecryptDirectory::Descend { depth, entries, at }) => {
            &&& depth == run.depth
            &&& at < entries.len()
            &&& exists|dir: Seq<u8>, m: int|
                at != m && tree.children()[before(m, at as int)] is Directory
                    && #[trigger] found_before(run, tree, n, dir, m, entries, at as int)
        },
        Progress::Running(DecryptDirectory::DecryptEntry { depth, entries, at }) => {
            let next = at + 1;
            &&& depth == run.depth
            &&& at < entries.len()
            &&& exists|dir: Seq<u8>, m: int| found_before(run, tree, n, dir, m, entries, next)
        },
        Progress::Running(s) => s.depth() == run.depth && run.payloads_upto(n) == 0,
        Progress::Finished(Ok(_)) => run.payloads_upto(n) == tree.payloads(),
        Progress::Finished(Err(_)) => true,
    }
}

/// The entry with index `at` of a listing.
proof fn lemma_entry(
    dir: Seq<u8>,
    tree: Tree,
    m: int,
    entries: Seq<Seq<u8>>,
    at: int,
)
    requires
        is_listing(dir, tree.children(), m, entries),
        tree is Directory,
        tree.is_named(),
        0 <= at < entries.len(),
    ensures
        at == m ==> file_name_of(entries[at]) == Some(encode_utf8(DIR_MARKER@)),
        at != m ==> ({
            let j = before(m, at);
            let child = tree.children()[j];
            &&& 0 <= j < tree.children().len()
            &&& file_name_of(entries[at]) == Some(child.name())
            &&& is_payload_name(entries[at]) == is_payload_name(child.name())
            &&& child.is_named()
            &&& tree.count_upto(payload_name(), before(m, at + 1)) == tree.count_upto(
                payload_name(),
                j,
            ) + child.payloads()
        }),
        at == m ==> before(m, at + 1) == before(m, at),
        before(m, entries.len() as int) == tree.children().len(),
{
    let children = tree.children();
    if at == m {
        lemma_marker_name(dir);
        assert(entries[at] == marker_of(dir));
    } else {
        let j = before(m, at);
        assert(entries[at] == paths_in(dir, children)[j]);
        assert(children[j].is_named());
        lemma_payload_anywhere(dir, children[j].name());
    }
}

/// The entry that is looked at is found to be a payload, or not.
proof fn lemma_look(run: DirectoryRun, key: Seq<u8>, tree: Tree, k: int)
    requires
        run.is_run(key),
        tree.is_named(),
        run.finds_tree(key, tree),
        0 <= k < run.done.len(),
        run.at(k, key) matches Progress::Running(s) && s is Look,
        found_upto(run, key, tree, k),
    ensures
        found_upto(run, key, tree, k + 1),
{
    let entries = run.at(k, key)->Running_0->Look_entries;
    let at = run.at(k, key)->Running_0->Look_at as int;
    let (dir, m) = choose|dir: Seq<u8>, m: int| found_before(run, tree, k, dir, m, entries, at);
    let children = tree.children();
    lemma_step(run, k, key);
    lemma_entry(dir, tree, m, entries, at);
    assert(!run.descends(k));
    let kind = run.done[k].reply->Meta_0->Ok_0.0;
    assert(is_found(children, file_name_of(entries[at]), kind));
    if at == m {
        assert(kind == FileKind::File);
        assert(!run.finds_payload(k));
        assert(found_before(run, tree, k + 1, dir, m, entries, at + 1));
    } else {
        let child = children[before(m, at)];
        assert(kind == child.kind());
        assert(run.finds_payload(k) == (child is File && is_payload_name(child.name())));
        if child is Directory {
            assert(found_before(run, tree, k + 1, dir, m, entries, at));
        } else {
            assert(child.payloads() == if run.finds_payload(k) {
                1nat
            } else {
                0
            });
            assert(found_before(run, tree, k + 1, dir, m, entries, at + 1));
        }
    }
}

/// One more exchange, where no entry is looked at. The directory that was
/// decrypted has been found whole.
proof fn lemma_other(run: DirectoryRun, key: Seq<u8>, tree: Tree, k: int)
    requires
        run.is_run(key),
        tree.is_named(),
        run.finds_tree(key, tree),
        0 <= k < run.done.len(),
        run.at(k, key) matches Progress::Running(s) && !(s is Look),
        found_upto(run, key, tree, k),
        run.at(k, key) matches Progress::Running(DecryptDirectory::Descend { entries, .. })
            && (run.done[k].reply matches Reply::Outcome(Ok(_))) ==> forall|j: int|
            0 <= j < tree.children().len() && tree.children()[j] is Directory && file_name_of(
                run.at(k, key)->Running_0->Descend_entries[run.at(
                    k,
                    key,
                )->Running_0->Descend_at as int],
            ) == Some(tree.children()[j].name()) ==> run.below[k].payloads() == (
            #[trigger] tree.children()[j]).payloads(),
    ensures
        found_upto(run, key, tree, k + 1),
{
    let children = tree.children();
    lemma_step(run, k, key);
    assert(!run.finds_payload(k));
    match run.at(k, key)->Running_0 {
        DecryptDirectory::List { current, .. } => {
            let entries = run.done[k].reply->Entries_0->Ok_0.entries;
            let m = choose|m: int| is_listing(current, children, m, entries);
            assert(!run.descends(k));
            assert(found_before(run, tree, k + 1, current, m, entries, 0));
        },
        DecryptDirectory::DecryptEntry { entries, at, .. } => {
            let next = at + 1;
            let (dir, m) = choose|dir: Seq<u8>, m: int|
                found_before(run, tree, k, dir, m, entries, next);
            assert(!run.descends(k));
            lemma_entry(dir, tree, m, entries, at as int);
            assert(found_before(run, tree, k + 1, dir, m, entries, at + 1));
        },
        DecryptDirectory::Descend { entries, at, .. } => {
            let (dir, m) = choose|dir: Seq<u8>, m: int|
                at != m && children[before(m, at as int)] is Directory && #[trigger] found_before(
                    run,
                    tree,
                    k,
                    dir,
                    m,
                    entries,
                    at as int,
                );
            lemma_entry(dir, tree, m, entries, at as int);
            assert(run.descends(k));
            if run.done[k].reply matches Reply::Outcome(Ok(_)) {
                assert(run.below[k].payloads() == children[before(m, at as int)].payloads());
                assert(found_before(run, tree, k + 1, dir, m, entries, at + 1));
            }
        },
        _ => {
            assert(!run.descends(k));
        },
    }
}

proof fn lemma_found(run: DirectoryRun, key: Seq<u8>, tree: Tree, n: int)
    requires
        run.is_run(key),
        tree.is_named(),
        tree.fits(run.depth as int),
        run.finds_tree(key, tree),
        0 <= n <= run.done.len(),
    ensures
        found_upto(run, key, tree, n),
    decreases run, n,
{
    if n == 0 {
        assert(run.done.subrange(0, 0) =~= Seq::empty());
        assert(run.at(0, key) == directory_decryption(run.path, run.depth).next);
    } else {
        let k = n - 1;
        lemma_found(run, key, tree, k);
        lemma_step(run, k, key);
        match run.at(k, key)->Running_0 {
            DecryptDirectory::Look { .. } => {
                lemma_look(run, key, tree, k);
            },
            DecryptDirectory::Descend { entries, at, .. } => {
                if run.done[k].reply matches Reply::Outcome(Ok(_)) {
                    assert(run.descends(k));
                    assert(run.below[k].is_run(key));
                    assert forall|j: int|
                        0 <= j < tree.children().len() && tree.children()[j] is Directory
                            && file_name_of(entries[at as int]) == Some(
                            tree.children()[j].name(),
                        ) implies run.below[k].payloads() == (
                    #[trigger] tree.children()[j]).payloads() by {
                        assert(tree.children()[j].is_named());
                        assert(tree.children()[j].fits(run.depth + 1));
                        law_run_finds_payloads(run.below[k], key, tree.children()[j]);
                    }
                }
                lemma_other(run, key, tree, k);
            },
            _ => {
                lemma_other(run, key, tree, k);
            },
        }
    }
}

/// A decryption that ends well finds every payload in the tree.
pub proof fn law_run_finds_payloads(run: DirectoryRun, key: Seq<u8>, tree: Tree)
    requires
        run.is_run(key),
        run.outcome(key) is Ok,
        tree.is_named(),
        tree.fits(run.depth as int),
        run.finds_tree(key, tree),
    ensures
        run.payloads() == tree.payloads(),
    decreases run, run.done.len() + 1,
{
    lemma_found(run, key, tree, run.done.len() as int);
}

/// Every payload that was counted before is restored or recorded as gone wrong:
/// one bad payload never stops the others. `entries` are what a walk through the
/// tree came by before the decryption, and `listed` is the same tree in the order
/// in which the decryption lists it.
pub proof fn law_counted_payloads_are_accounted(
    run: DirectoryRun,
    key: Seq<u8>,
    tree: Tree,
    listed: Tree,
    path: Seq<u8>,
    entries: Seq<TreeEntry>,
)
    requires
        run.is_run(key),
        run.outcome(key) is Ok,
        tree is Directory,
        tree.is_named(),
        is_walk(entries, tree.walk(path)),
        tree.rearranged(listed),
        listed.is_named(),
        listed.fits(run.depth as int),
        run.finds_tree(key, listed),
    ensures
        run.restored(key) + file_troubles(run.troubles(key)).len() == entries.filter(
            |entry: TreeEntry| is_payload(entry),
        ).len(),
{
    law_every_payload_is_accounted(run, key);
    law_run_finds_payloads(run, key, listed);
    lemma_rearranged_count(tree, listed, payload_name());
    law_walk_counts_payloads(tree, path, entries);
}

} // verus!

//! Directory trees as they lie in a file system, plain and encrypted.

use vstd::prelude::*;
use vstd::seq_lib::lemma_fold_left_permutation;
use vstd::set_lib::{lemma_int_range, lemma_subset_equality, set_int_range};
use vstd::utf8::{encode_utf8, is_ascii_chars_encode_utf8, valid_utf8};
use crate::crypto::container::decrypts_to;
use crate::crypto::key::{is_random_name, simple_opened};
use crate::crypto::primitives::ascii_alphanumeric;
use crate::crypto::CryptoError;
use crate::fsops::action::FileKind;
use crate::fsops::encrypt_dir::MAX_DEPTH;
use crate::fsops::stats::DIR_MARKER;
use crate::fsops::tree::is_payload_name;
use crate::paths::{
    is_plain_name, join_of, law_join_file_name, lemma_last_dot, DOT, SLASH,
};
use crate::text::lossy_of;

verus! {

/// A directory tree.
pub ghost enum Tree {
    /// A file with its content.
    File { name: Seq<u8>, content: Seq<u8> },
    /// A directory with what is in it, in the order in which it is listed. Where
    /// the directory is encrypted, `marker` is the content of the file in it that
    /// holds its name.
    Directory { name: Seq<u8>, marker: Option<Seq<u8>>, children: Seq<Tree> },
    /// A symbolic link.
    Link { name: Seq<u8> },
    /// Anything else.
    Other { name: Seq<u8> },
}

impl Tree {
    /// The name.
    pub open spec fn name(self) -> Seq<u8> {
        match self {
            Tree::File { name, .. } => name,
            Tree::Directory { name, .. } => name,
            Tree::Link { name } => name,
            Tree::Other { name } => name,
        }
    }

    /// What stands there.
    pub open spec fn kind(self) -> FileKind {
        match self {
            Tree::File { .. } => FileKind::File,
            Tree::Directory { .. } => FileKind::Directory,
            Tree::Link { .. } => FileKind::Symlink,
            Tree::Other { .. } => FileKind::Other,
        }
    }

    /// What is in it.
    pub open spec fn children(self) -> Seq<Tree> {
        match self {
            Tree::Directory { children, .. } => children,
            _ => Seq::empty(),
        }
    }

    /// Whether nothing in the tree is encrypted, everything has a name that can
    /// stand in a directory, and files and directories have names in UTF-8.
    pub open spec fn is_plain(self) -> bool
        decreases self,
    {
        &&& is_plain_name(self.name())
        &&& match self {
            Tree::File { name, .. } => valid_utf8(name),
            Tree::Directory { name, marker, children } => valid_utf8(name) && marker is None
                && forall|i: int|
                0 <= i < children.len() ==> (#[trigger] children[i]).is_plain(),
            _ => true,
        }
    }

    /// Whether everything in the tree has a name that can stand in a directory.
    pub open spec fn is_named(self) -> bool
        decreases self,
    {
        &&& is_plain_name(self.name())
        &&& self matches Tree::Directory { children, .. } ==> forall|i: int|
            0 <= i < children.len() ==> (#[trigger] children[i]).is_named()
    }

    /// Whether no directory in the tree lies too deep, if the tree lies this deep.
    pub open spec fn fits(self, depth: int) -> bool
        decreases self,
    {
        self matches Tree::Directory { children, .. } ==> {
            &&& depth <= MAX_DEPTH
            &&& forall|i: int|
                0 <= i < children.len() ==> (#[trigger] children[i]).fits(depth + 1)
        }
    }

    /// The number of files in the tree whose names `counts` accepts, with the
    /// first `n` children.
    pub open spec fn count_upto(self, counts: spec_fn(Seq<u8>) -> bool, n: int) -> nat
        decreases self, n,
    {
        match self {
            Tree::File { name, .. } => if counts(name) {
                1
            } else {
                0
            },
            Tree::Directory { children, .. } => if n <= 0 || n > children.len() {
                0
            } else {
                self.count_upto(counts, n - 1) + children[n - 1].count_upto(
                    counts,
                    children[n - 1].children().len() as int,
                )
            },
            _ => 0,
        }
    }

    /// The number of files in the tree whose names `counts` accepts.
    pub open spec fn count(self, counts: spec_fn(Seq<u8>) -> bool) -> nat {
        self.count_upto(counts, self.children().len() as int)
    }

    /// The number of files in the tree.
    pub open spec fn files(self) -> nat {
        self.count(any_name())
    }

    /// The number of payloads in the tree.
    pub open spec fn payloads(self) -> nat {
        self.count(payload_name())
    }

    /// Whether `hidden` is what encryption under `key` leaves of this tree: files
    /// are containers with random names that decrypt to their name and content,
    /// directories have random names and hold their own name, sealed, and the rest
    /// is as it was.
    pub open spec fn sealed_as(self, key: Seq<u8>, hidden: Tree) -> bool
        decreases self,
    {
        match (self, hidden) {
            (
                Tree::File { name, content },
                Tree::File { name: random, content: container },
            ) => is_container_name(random) && decrypts_to(key, container, lossy_of(name), content),
            (
                Tree::Directory { name, children, .. },
                Tree::Directory { name: random, marker, children: sealed },
            ) => {
                &&& is_hidden_name(random)
                &&& holds_name(marker, key, name)
                &&& sealed.len() == children.len()
                &&& forall|i: int|
                    0 <= i < children.len() ==> (#[trigger] children[i]).sealed_as(key, sealed[i])
            },
            (Tree::Link { name }, Tree::Link { name: same }) => name == same,
            (Tree::Other { name }, Tree::Other { name: same }) => name == same,
            _ => false,
        }
    }

    /// Whether `other` is this tree with its directories listed in another order.
    pub open spec fn rearranged(self, other: Tree) -> bool
        decreases self,
    {
        match self {
            Tree::Directory { name, marker, children } => {
                &&& other is Directory
                &&& other.name() == name
                &&& other->marker == marker
                &&& exists|order: Seq<int>|
                    {
                        &&& #[trigger] is_order(order, children.len(), other->children.len())
                        &&& forall|i: int|
                            0 <= i < order.len() ==> children[#[trigger] order[i]].rearranged(
                                other->children[i],
                            )
                    }
            },
            _ => self == other,
        }
    }
}

/// Accepts every name.
pub open spec fn any_name() -> spec_fn(Seq<u8>) -> bool {
    |name: Seq<u8>| true
}

/// Accepts the names of payloads.
pub open spec fn payload_name() -> spec_fn(Seq<u8>) -> bool {
    |name: Seq<u8>| is_payload_name(name)
}

/// Whether `order` puts `n` things into another order.
pub open spec fn is_order(order: Seq<int>, n: nat, m: nat) -> bool {
    &&& order.len() == n
    &&& n == m
    &&& order.no_duplicates()
    &&& forall|i: int| 0 <= i < order.len() ==> 0 <= #[trigger] order[i] < n
}

/// Whether `name` is a random name with the extension of a container.
pub open spec fn is_container_name(name: Seq<u8>) -> bool {
    exists|random: Seq<char>| #[trigger]
        is_random_name(random) && name == encode_utf8(random) + encode_utf8(".enc"@)
}

/// Whether `name` is a random name.
pub open spec fn is_hidden_name(name: Seq<u8>) -> bool {
    exists|random: Seq<char>| #[trigger] is_random_name(random) && name == encode_utf8(random)
}

/// Whether `marker` holds `name`, sealed under `key`.
pub open spec fn holds_name(marker: Option<Seq<u8>>, key: Seq<u8>, name: Seq<u8>) -> bool {
    &&& marker matches Some(sealed)
    &&& simple_opened(sealed, key) == Ok::<Seq<u8>, CryptoError>(encode_utf8(lossy_of(name)))
}

/// The paths of `trees` in the directory `dir`.
pub open spec fn paths_in(dir: Seq<u8>, trees: Seq<Tree>) -> Seq<Seq<u8>> {
    Seq::new(trees.len(), |j: int| join_of(dir, trees[j].name()))
}

/// A random name with the extension of a container can stand in a directory, and
/// names a payload there. A random name can stand in a directory, too.
pub proof fn lemma_random_names(dir: Seq<u8>, random: Seq<char>)
    requires
        is_random_name(random),
    ensures
        ({
            let name = encode_utf8(random) + encode_utf8(".enc"@);
            &&& is_plain_name(name)
            &&& is_plain_name(encode_utf8(random))
            &&& is_payload_name(join_of(dir, name))
        }),
{
    let bytes = encode_utf8(random);
    let dotted = encode_utf8(".enc"@);
    let name = bytes + dotted;
    reveal_strlit(".enc");
    reveal_strlit("enc");
    reveal_strlit(".dirname.enc");
    is_ascii_chars_encode_utf8(random);
    is_ascii_chars_encode_utf8(".enc"@);
    is_ascii_chars_encode_utf8("enc"@);
    is_ascii_chars_encode_utf8(DIR_MARKER@);
    assert forall|i: int| 0 <= i < bytes.len() implies bytes[i] != SLASH && bytes[i] != DOT by {
        assert(ascii_alphanumeric(random[i]));
        assert(random[i] as u8 == bytes[i]);
    }
    assert(dotted.len() == 4 && dotted[0] == DOT);
    assert(dotted.skip(1) =~= encode_utf8("enc"@));
    assert(!name.contains(SLASH));
    assert(!bytes.contains(SLASH));
    lemma_last_dot(name, bytes.len() as int);
    assert(name.skip(bytes.len() as int + 1) =~= encode_utf8("enc"@));
    law_join_file_name(dir, name);
    assert(name.len() == 20);
    assert(encode_utf8(DIR_MARKER@).len() == 12);
}

/// The sum of what there is so far and the files that count in the child with
/// index `i`.
spec fn counting(children: Seq<Tree>, counts: spec_fn(Seq<u8>) -> bool) -> spec_fn(
    nat,
    int,
) -> nat {
    |sum: nat, i: int| sum + children[i].count(counts)
}

/// The first `n` whole numbers.
spec fn indices(n: nat) -> Seq<int> {
    Seq::new(n, |i: int| i)
}

/// An order puts every thing somewhere, once.
proof fn lemma_order_is_complete(order: Seq<int>, n: nat)
    requires
        is_order(order, n, n),
    ensures
        order.to_multiset() == indices(n).to_multiset(),
{
    let all = indices(n);
    order.unique_seq_to_set();
    lemma_int_range(0, n as int);
    assert forall|i: int| order.to_set().contains(i) implies 0 <= i < n by {
        let k = choose|k: int| 0 <= k < order.len() && order[k] == i;
        assert(order[k] == i);
    }
    lemma_subset_equality(order.to_set(), set_int_range(0, n as int));
    order.lemma_multiset_has_no_duplicates();
    all.lemma_multiset_has_no_duplicates();
    order.to_multiset_ensures();
    all.to_multiset_ensures();
    assert forall|i: int| order.to_multiset().count(i) == all.to_multiset().count(i) by {
        if order.contains(i) {
            assert(order.to_set().contains(i));
            assert(all[i] == i);
        } else if all.contains(i) {
            assert(set_int_range(0, n as int).contains(i));
            assert(order.to_set().contains(i));
        }
        assert(order.contains(i) == all.contains(i));
        if order.contains(i) {
            assert(order.to_multiset().contains(i));
            assert(all.to_multiset().contains(i));
        }
    }
    assert(order.to_multiset() =~= all.to_multiset());
}

proof fn lemma_count_fold(
    tree: Tree,
    counts: spec_fn(Seq<u8>) -> bool,
    children: Seq<Tree>,
    order: Seq<int>,
    n: int,
)
    requires
        tree is Directory,
        order.len() == tree.children().len(),
        0 <= n <= order.len(),
        forall|i: int|
            0 <= i < order.len() ==> (#[trigger] tree.children()[i]).count(counts)
                == children[order[i]].count(counts),
    ensures
        tree.count_upto(counts, n) == order.subrange(0, n).fold_left(
            0nat,
            counting(children, counts),
        ),
    decreases n,
{
    if n > 0 {
        lemma_count_fold(tree, counts, children, order, n - 1);
        assert(order.subrange(0, n).drop_last() =~= order.subrange(0, n - 1));
        assert(tree.children()[n - 1].count(counts) == children[order[n - 1]].count(counts));
    }
}

/// Listed in another order, a tree has as many files that count.
pub proof fn lemma_rearranged_count(
    tree: Tree,
    other: Tree,
    counts: spec_fn(Seq<u8>) -> bool,
)
    requires
        tree.rearranged(other),
    ensures
        tree.count(counts) == other.count(counts),
    decreases tree,
{
    if let Tree::Directory { name, marker, children } = tree {
        let listed = other->children;
        let order = choose|order: Seq<int>|
            {
                &&& #[trigger] is_order(order, children.len(), listed.len())
                &&& forall|i: int|
                    0 <= i < order.len() ==> children[#[trigger] order[i]].rearranged(listed[i])
            };
        let n = children.len();
        assert forall|i: int| 0 <= i < order.len() implies (#[trigger] listed[i]).count(counts)
            == children[order[i]].count(counts) by {
            let k = order[i];
            lemma_rearranged_count(children[k], listed[i], counts);
        }
        lemma_count_fold(other, counts, children, order, n as int);
        lemma_count_fold(tree, counts, children, indices(n), n as int);
        assert(order.subrange(0, n as int) =~= order);
        assert(indices(n).subrange(0, n as int) =~= indices(n));
        lemma_order_is_complete(order, n);
        lemma_fold_left_permutation(order, indices(n), counting(children, counts), 0nat);
    }
}

/// Whether `found` is encrypted to `listed`, and is `plain` but for the order.
spec fn matches_listed(plain: Tree, found: Tree, key: Seq<u8>, listed: Tree) -> bool {
    &&& plain.rearranged(found)
    &&& found.sealed_as(key, listed)
    &&& plain.is_plain() ==> found.is_plain()
}

/// Where an encrypted tree is listed in another order, so is the plain one.
pub proof fn lemma_listed(plain: Tree, key: Seq<u8>, hidden: Tree, listed: Tree) -> (found: Tree)
    requires
        plain.sealed_as(key, hidden),
        hidden.rearranged(listed),
    ensures
        plain.rearranged(found),
        found.sealed_as(key, listed),
        plain.is_plain() ==> found.is_plain(),
    decreases plain,
{
    match (plain, hidden, listed) {
        (
            Tree::Directory { name, marker, children },
            Tree::Directory { children: sealed, .. },
            Tree::Directory { children: moved, .. },
        ) => {
            let order = choose|order: Seq<int>|
                {
                    &&& #[trigger] is_order(order, sealed.len(), moved.len())
                    &&& forall|i: int|
                        0 <= i < order.len() ==> sealed[#[trigger] order[i]].rearranged(moved[i])
                };
            assert forall|i: int| 0 <= i < moved.len() implies exists|t: Tree|
                matches_listed(children[order[i]], t, key, #[trigger] moved[i]) by {
                let k = order[i];
                let child = children[k];
                assert(child.sealed_as(key, sealed[k]));
                let t = lemma_listed(child, key, sealed[k], moved[i]);
                assert(matches_listed(child, t, key, moved[i]));
            }
            let inner = Seq::new(
                moved.len(),
                |i: int| choose|t: Tree| matches_listed(children[order[i]], t, key, moved[i]),
            );
            assert forall|i: int| 0 <= i < moved.len() implies matches_listed(
                children[order[i]],
                #[trigger] inner[i],
                key,
                moved[i],
            ) by {
                assert(moved[i] == moved[i]);
            }
            let found = Tree::Directory { name, marker, children: inner };
            assert(is_order(order, children.len(), found->children.len()));
            assert forall|i: int| 0 <= i < order.len() implies children[
                #[trigger] order[i]
            ].rearranged(found->children[i]) by {
                assert(matches_listed(children[order[i]], inner[i], key, moved[i]));
            }
            assert(plain.rearranged(found));
            assert(found.sealed_as(key, listed));
            if plain.is_plain() {
                assert forall|i: int| 0 <= i < inner.len() implies (
                #[trigger] inner[i]).is_plain() by {
                    assert(matches_listed(children[order[i]], inner[i], key, moved[i]));
                }
            }
            found
        },
        _ => plain,
    }
}

} // verus!

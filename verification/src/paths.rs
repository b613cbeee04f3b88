//! Unix paths as byte strings: components, joining and extensions.
//!
//! A path is a row of pieces between slashes. Empty pieces and pieces that
//! consist of a dot name nothing; a piece of two dots names the parent.

use vstd::prelude::*;
use vstd::slice::slice_subrange;
use vstd::utf8::{
    is_char_boundary_iff_not_is_continuation_byte, pop_first_scalar, valid_utf8, valid_utf8_split,
};
use crate::bytes::append;

verus! {

/// The separator of pieces.
pub const SLASH: u8 = 47;

/// The separator of stem and extension.
pub const DOT: u8 = 46;

/// `path` without the slashes and the dots at its end that name nothing.
pub open spec fn trimmed(path: Seq<u8>) -> Seq<u8>
    decreases path.len(),
{
    if path.len() > 0 && path.last() == SLASH {
        trimmed(path.drop_last())
    } else if path.len() > 0 && path.last() == DOT && (path.len() == 1 || path[path.len() - 2]
        == SLASH) {
        trimmed(path.drop_last())
    } else {
        path
    }
}

/// Where the last piece of `path` begins.
pub open spec fn last_piece_start(path: Seq<u8>) -> int
    decreases path.len(),
{
    if path.len() == 0 || path.last() == SLASH {
        path.len() as int
    } else {
        last_piece_start(path.drop_last())
    }
}

/// The last component of `path`, unless it has none or ends in the parent of
/// something.
pub open spec fn file_name_of(path: Seq<u8>) -> Option<Seq<u8>> {
    let t = trimmed(path);
    let piece = t.skip(last_piece_start(t));
    if t.len() == 0 || piece == seq![DOT, DOT] {
        None
    } else {
        Some(piece)
    }
}

/// `path` without its last component.
pub open spec fn parent_of(path: Seq<u8>) -> Option<Seq<u8>> {
    let t = trimmed(path);
    if t.len() > 0 {
        let front = t.subrange(0, last_piece_start(t));
        let kept = trimmed(front);
        if kept.len() == 0 && front.len() > 0 {
            Some(front.subrange(0, 1))
        } else {
            Some(kept)
        }
    } else if path.len() > 0 && path[0] == DOT {
        Some(Seq::empty())
    } else {
        None
    }
}

/// The place of the last `DOT` of `name`, or its length.
pub open spec fn last_dot(name: Seq<u8>) -> int
    decreases name.len(),
{
    if name.len() == 0 {
        0
    } else if name.last() == DOT {
        name.len() - 1
    } else if last_dot(name.drop_last()) == name.len() - 1 {
        name.len() as int
    } else {
        last_dot(name.drop_last())
    }
}

/// Where a name has a last dot, there it is.
pub proof fn lemma_dot_at_last_dot(name: Seq<u8>)
    ensures
        0 <= last_dot(name) <= name.len(),
        last_dot(name) < name.len() ==> name[last_dot(name)] == DOT,
    decreases name.len(),
{
    if name.len() > 0 && name.last() != DOT {
        lemma_dot_at_last_dot(name.drop_last());
    }
}

/// Whether `name` has a dot behind its first byte.
pub open spec fn has_extension(name: Seq<u8>) -> bool {
    0 < last_dot(name) < name.len()
}

/// The part of a file name before its extension.
pub open spec fn stem_of_name(name: Seq<u8>) -> Seq<u8> {
    if has_extension(name) {
        name.subrange(0, last_dot(name))
    } else {
        name
    }
}

/// The part of a file name behind its last dot, unless that dot comes first.
pub open spec fn extension_of_name(name: Seq<u8>) -> Option<Seq<u8>> {
    if has_extension(name) {
        Some(name.skip(last_dot(name) + 1))
    } else {
        None
    }
}

/// The part of the file name of `path` before its extension.
pub open spec fn stem_of(path: Seq<u8>) -> Option<Seq<u8>> {
    match file_name_of(path) {
        Some(name) => Some(stem_of_name(name)),
        None => None,
    }
}

/// The extension of the file name of `path`.
pub open spec fn extension_of(path: Seq<u8>) -> Option<Seq<u8>> {
    match file_name_of(path) {
        Some(name) => extension_of_name(name),
        None => None,
    }
}

/// `name` in the directory `dir`. A name that begins with a slash stands alone.
pub open spec fn join_of(dir: Seq<u8>, name: Seq<u8>) -> Seq<u8> {
    if name.len() > 0 && name[0] == SLASH {
        name
    } else if dir.len() == 0 || dir.last() == SLASH {
        dir + name
    } else {
        dir + seq![SLASH] + name
    }
}

/// `path` with `extension` in place of the extension of its file name. A path
/// without a file name stays as it is.
pub open spec fn with_extension_of(path: Seq<u8>, extension: Seq<u8>) -> Seq<u8> {
    match file_name_of(path) {
        None => path,
        Some(name) => {
            let t = trimmed(path);
            t.subrange(0, last_piece_start(t)) + stem_of_name(name) + seq![DOT] + extension
        },
    }
}

/// `parent_of(path)`, or the current directory where there is none.
pub open spec fn parent_or_dot(path: Seq<u8>) -> Seq<u8> {
    match parent_of(path) {
        Some(parent) => parent,
        None => seq![DOT],
    }
}

proof fn lemma_trimmed_is_prefix(path: Seq<u8>)
    ensures
        trimmed(path).len() <= path.len(),
        trimmed(path) == path.subrange(0, trimmed(path).len() as int),
        trimmed(path).len() > 0 ==> trimmed(path).last() != SLASH,
    decreases path.len(),
{
    if path.len() > 0 && trimmed(path) == trimmed(path.drop_last()) {
        lemma_trimmed_is_prefix(path.drop_last());
        let n = trimmed(path).len() as int;
        if n < path.len() {
            assert(path.drop_last().subrange(0, n) =~= path.subrange(0, n));
        } else {
            assert(path.subrange(0, n) =~= path);
        }
    } else {
        assert(path.subrange(0, path.len() as int) =~= path);
    }
}

proof fn lemma_last_piece(path: Seq<u8>)
    ensures
        0 <= last_piece_start(path) <= path.len(),
        forall|i: int| last_piece_start(path) <= i < path.len() ==> path[i] != SLASH,
        last_piece_start(path) > 0 ==> path[last_piece_start(path) - 1] == SLASH,
    decreases path.len(),
{
    if path.len() > 0 && path.last() != SLASH {
        lemma_last_piece(path.drop_last());
        let s = last_piece_start(path);
        assert forall|i: int| s <= i < path.len() implies path[i] != SLASH by {
            if i < path.len() - 1 {
                assert(path.drop_last()[i] == path[i]);
            }
        }
    }
}

/// A file name is not empty, holds no slash, and is neither one dot nor two: in
/// whatever directory it is put, it names something in that directory.
pub proof fn law_file_name_is_plain(path: Seq<u8>)
    ensures
        file_name_of(path) matches Some(name) ==> is_plain_name(name),
{
    if let Some(name) = file_name_of(path) {
        let t = trimmed(path);
        lemma_trimmed_is_prefix(path);
        lemma_last_piece(t);
        if last_piece_start(t) == t.len() {
            assert(t[t.len() - 1] == SLASH);
        }
        if name == seq![DOT] {
            assert(name.len() == 1);
            assert(name[0] == t[last_piece_start(t)]);
            lemma_trimmed_twice(path);
            lemma_trimmed_is_prefix(t.drop_last());
        }
    }
}

/// What trimming takes away begins with a slash or a dot.
proof fn lemma_trimmed_behind(path: Seq<u8>)
    ensures
        trimmed(path).len() < path.len() ==> path[trimmed(path).len() as int] == SLASH
            || path[trimmed(path).len() as int] == DOT,
    decreases path.len(),
{
    if path.len() > 0 && trimmed(path) != path {
        lemma_trimmed_is_prefix(path.drop_last());
        lemma_trimmed_behind(path.drop_last());
    }
}

/// Text in UTF-8 can be cut before a character of one byte, and behind it.
proof fn lemma_utf8_cut(text: Seq<u8>, at: int)
    requires
        valid_utf8(text),
        0 <= at < text.len(),
        text[at] <= 0x7f,
    ensures
        valid_utf8(text.subrange(0, at)),
        valid_utf8(text.skip(at + 1)),
{
    is_char_boundary_iff_not_is_continuation_byte(text, at);
    valid_utf8_split(text, at);
    let rest = text.subrange(at, text.len() as int);
    assert(rest[0] == text[at]);
    assert(pop_first_scalar(rest) =~= text.skip(at + 1));
}

/// The file name of a path in UTF-8 is in UTF-8, and so are its stem and its
/// extension.
pub proof fn law_file_name_stays_text(path: Seq<u8>)
    requires
        valid_utf8(path),
    ensures
        file_name_of(path) matches Some(name) ==> valid_utf8(name) && valid_utf8(
            stem_of_name(name),
        ) && (extension_of_name(name) matches Some(extension) ==> valid_utf8(extension)),
{
    if let Some(name) = file_name_of(path) {
        let t = trimmed(path);
        let start = last_piece_start(t);
        lemma_trimmed_is_prefix(path);
        lemma_trimmed_behind(path);
        lemma_last_piece(t);
        if t.len() < path.len() {
            lemma_utf8_cut(path, t.len() as int);
        } else {
            assert(t =~= path);
        }
        if start > 0 {
            lemma_utf8_cut(t, start - 1);
        } else {
            assert(t.skip(start) =~= t);
        }
        lemma_dot_at_last_dot(name);
        if has_extension(name) {
            lemma_utf8_cut(name, last_dot(name));
        }
    }
}

/// Trimming leaves nothing to trim.
proof fn lemma_trimmed_twice(path: Seq<u8>)
    ensures
        trimmed(trimmed(path)) == trimmed(path),
    decreases path.len(),
{
    if path.len() > 0 && trimmed(path) != path {
        lemma_trimmed_twice(path.drop_last());
    }
}

/// Whether `name` can stand as a file name in any directory.
pub open spec fn is_plain_name(name: Seq<u8>) -> bool {
    &&& name.len() > 0
    &&& !name.contains(SLASH)
    &&& name != seq![DOT]
    &&& name != seq![DOT, DOT]
}

proof fn lemma_join_pieces(dir: Seq<u8>, name: Seq<u8>)
    requires
        is_plain_name(name),
    ensures
        ({
            let path = join_of(dir, name);
            &&& trimmed(path) == path
            &&& last_piece_start(path) == path.len() - name.len()
            &&& path.skip(last_piece_start(path)) == name
        }),
{
    let path = join_of(dir, name);
    let start = path.len() - name.len();
    assert(name.contains(name[0]));
    assert(name.contains(name.last()));
    assert(path.last() == name.last());
    if path.len() > 1 && path.last() == DOT && path[path.len() - 2] == SLASH {
        if name.len() >= 2 {
            assert(name[name.len() - 2] == path[path.len() - 2]);
            assert(name.contains(name[name.len() - 2]));
        } else {
            assert(name =~= seq![DOT]);
        }
    }
    if path.len() == 1 {
        assert(name =~= path);
        assert(path.last() == DOT ==> name =~= seq![DOT]);
    }
    lemma_last_piece(path);
    let s = last_piece_start(path);
    if s > start {
        assert(name[s - 1 - start] == path[s - 1]);
        assert(name.contains(name[s - 1 - start]));
    }
    if s < start {
        assert(path[start - 1] == SLASH);
    }
    assert(path.skip(start) =~= name);
}

/// A plain name in a directory is the file name of the path that it makes.
pub proof fn law_join_file_name(dir: Seq<u8>, name: Seq<u8>)
    requires
        is_plain_name(name),
    ensures
        file_name_of(join_of(dir, name)) == Some(name),
{
    lemma_join_pieces(dir, name);
}

/// A plain name in a directory that is named itself lies in that directory.
pub proof fn law_join_twice(dir: Seq<u8>, name: Seq<u8>, inner: Seq<u8>)
    requires
        is_plain_name(name),
        is_plain_name(inner),
    ensures
        parent_of(join_of(join_of(dir, name), inner)) == Some(join_of(dir, name)),
{
    let outer = join_of(dir, name);
    let made = join_of(outer, inner);
    lemma_join_pieces(dir, name);
    lemma_join_pieces(outer, inner);
    assert(name.contains(name.last()));
    assert(outer.last() == name.last());
    let front = made.subrange(0, last_piece_start(made));
    assert(front =~= outer.push(SLASH));
    assert(front.drop_last() =~= outer);
    assert(trimmed(front) == trimmed(outer));
}

/// Another extension leaves a path in its directory.
pub proof fn law_extension_stays(path: Seq<u8>, extension: Seq<u8>)
    requires
        file_name_of(path) is Some,
        extension.len() > 0,
        !extension.contains(SLASH),
    ensures
        parent_of(with_extension_of(path, extension)) == parent_of(path),
        file_name_of(with_extension_of(path, extension)) == Some(
            stem_of_name(file_name_of(path)->Some_0) + seq![DOT] + extension,
        ),
{
    let t = trimmed(path);
    let start = last_piece_start(t);
    let front = t.subrange(0, start);
    let name = file_name_of(path)->Some_0;
    let stem = stem_of_name(name);
    let changed = stem + seq![DOT] + extension;
    let made = with_extension_of(path, extension);
    law_file_name_is_plain(path);
    lemma_last_piece(t);
    lemma_dot_at_last_dot(name);
    assert(stem.len() > 0);
    assert forall|i: int| 0 <= i < changed.len() implies changed[i] != SLASH by {
        if i < stem.len() {
            assert(name.contains(name[i]));
        } else if i > stem.len() {
            assert(extension.contains(extension[i - stem.len() - 1]));
        }
    }
    assert(changed.len() > 2);
    assert(join_of(front, changed) =~= made);
    lemma_join_pieces(front, changed);
    assert(made.subrange(0, start) =~= front);
}

/// A plain name put in the place of a path's file name leaves the directory as
/// it is.
pub proof fn law_join_parent(path: Seq<u8>, name: Seq<u8>)
    requires
        is_plain_name(name),
    ensures
        parent_of(join_of(parent_or_dot(path), name)) == Some(parent_or_dot(path)),
{
    let dir = parent_or_dot(path);
    let made = join_of(dir, name);
    lemma_join_pieces(dir, name);
    assert(trimmed(Seq::<u8>::empty()) == Seq::<u8>::empty());
    let front = made.subrange(0, last_piece_start(made));
    let t = trimmed(path);
    if t.len() > 0 {
        let before = t.subrange(0, last_piece_start(t));
        lemma_trimmed_twice(before);
        lemma_trimmed_is_prefix(t);
        lemma_last_piece(t);
        if dir.len() == 0 {
            assert(front =~= dir);
        } else if dir.last() == SLASH {
            lemma_trimmed_is_prefix(before);
            assert(front =~= dir);
            assert(dir.drop_last() =~= Seq::<u8>::empty());
            assert(front.subrange(0, 1) =~= dir);
        } else {
            assert(front =~= dir.push(SLASH));
            assert(front.drop_last() =~= dir);
            if trimmed(before).len() == 0 {
                lemma_first_of_trimmed_away(before);
                assert(dir.len() == 1 && dir.last() == before[0]);
                assert(dir.drop_last() =~= Seq::<u8>::empty());
                assert(trimmed(dir) == Seq::<u8>::empty());
                assert(front.subrange(0, 1) =~= dir);
            } else {
                assert(trimmed(dir) == dir);
            }
            assert(trimmed(front) == trimmed(dir));
        }
    } else if dir.len() == 0 {
        assert(front =~= dir);
    } else {
        assert(front =~= seq![DOT, SLASH]);
        assert(front.drop_last() =~= dir);
        assert(dir.drop_last() =~= Seq::<u8>::empty());
        assert(trimmed(dir) == Seq::<u8>::empty());
        assert(trimmed(front) == trimmed(dir));
        assert(front.subrange(0, 1) =~= dir);
    }
    assert(trimmed(made) == made);
}

/// What is trimmed away whole begins with a slash or a dot.
proof fn lemma_first_of_trimmed_away(path: Seq<u8>)
    requires
        trimmed(path).len() == 0,
        path.len() > 0,
    ensures
        path[0] == SLASH || path[0] == DOT,
    decreases path.len(),
{
    if path.len() > 1 {
        lemma_first_of_trimmed_away(path.drop_last());
    }
}

/// The length of `path` without what it ends in that names nothing.
fn trimmed_len(path: &[u8]) -> (n: usize)
    ensures
        n <= path@.len(),
        trimmed(path@) == path@.subrange(0, n as int),
{
    let mut n: usize = path.len();
    assert(path@.subrange(0, n as int) =~= path@);
    while n > 0 && (path[n - 1] == SLASH || (path[n - 1] == DOT && (n == 1 || path[n - 2]
        == SLASH)))
        invariant
            n <= path@.len(),
            trimmed(path@.subrange(0, n as int)) == trimmed(path@),
        decreases n,
    {
        let ghost part = path@.subrange(0, n as int);
        assert(part.drop_last() =~= path@.subrange(0, n - 1));
        n = n - 1;
    }
    n
}

/// Where the last piece of `path[..end]` begins.
fn piece_start(path: &[u8], end: usize) -> (start: usize)
    requires
        end <= path@.len(),
    ensures
        start <= end,
        start == last_piece_start(path@.subrange(0, end as int)),
{
    let mut start: usize = end;
    while start > 0 && path[start - 1] != SLASH
        invariant
            start <= end <= path@.len(),
            last_piece_start(path@.subrange(0, start as int)) == last_piece_start(
                path@.subrange(0, end as int),
            ),
        decreases start,
    {
        let ghost part = path@.subrange(0, start as int);
        assert(part.drop_last() =~= path@.subrange(0, start - 1));
        start = start - 1;
    }
    start
}

/// Where the file name of `path` begins and ends.
fn name_range(path: &[u8]) -> (r: Option<(usize, usize)>)
    ensures
        match r {
            Some((start, end)) => {
                &&& start <= end <= path@.len()
                &&& trimmed(path@) == path@.subrange(0, end as int)
                &&& start == last_piece_start(trimmed(path@))
                &&& file_name_of(path@) == Some(path@.subrange(start as int, end as int))
            },
            None => file_name_of(path@) is None,
        },
{
    let end: usize = trimmed_len(path);
    let start: usize = piece_start(path, end);
    let ghost t = trimmed(path@);
    let ghost piece = path@.subrange(start as int, end as int);
    assert(t.skip(start as int) =~= piece);
    if end == 0 {
        return None;
    }
    if end - start == 2 && path[start] == DOT && path[start + 1] == DOT {
        assert(piece =~= seq![DOT, DOT]);
        return None;
    }
    proof {
        if piece == seq![DOT, DOT] {
            assert(piece[0] == DOT && piece[1] == DOT);
        }
    }
    Some((start, end))
}

/// The last component of `path`, unless it has none or ends in the parent of
/// something.
pub fn file_name(path: &[u8]) -> (r: Option<&[u8]>)
    ensures
        match r {
            Some(name) => file_name_of(path@) == Some(name@) && name@.len() <= path@.len(),
            None => file_name_of(path@) is None,
        },
{
    match name_range(path) {
        Some((start, end)) => Some(slice_subrange(path, start, end)),
        None => None,
    }
}

/// `path` without its last component.
pub fn parent(path: &[u8]) -> (r: Option<&[u8]>)
    ensures
        match r {
            Some(dir) => parent_of(path@) == Some(dir@),
            None => parent_of(path@) is None,
        },
{
    let end: usize = trimmed_len(path);
    if end == 0 {
        if path.len() > 0 && path[0] == DOT {
            let none = slice_subrange(path, 0, 0);
            assert(none@ =~= Seq::<u8>::empty());
            return Some(none);
        }
        return None;
    }
    let start: usize = piece_start(path, end);
    let front = slice_subrange(path, 0, start);
    assert(front@ =~= trimmed(path@).subrange(0, start as int));
    let kept: usize = trimmed_len(front);
    if kept == 0 && start > 0 {
        return Some(slice_subrange(front, 0, 1));
    }
    Some(slice_subrange(front, 0, kept))
}

/// The place of the last `DOT` of `name`, or its length.
fn find_last_dot(name: &[u8]) -> (at: usize)
    ensures
        at == last_dot(name@),
        at <= name@.len(),
{
    let mut n: usize = name.len();
    while n > 0
        invariant
            n <= name@.len(),
            forall|i: int| n <= i < name@.len() ==> name@[i] != DOT,
        decreases n,
    {
        if name[n - 1] == DOT {
            proof {
                lemma_last_dot(name@, n - 1);
            }
            return n - 1;
        }
        n = n - 1;
    }
    proof {
        lemma_no_dot(name@);
    }
    name.len()
}

pub proof fn lemma_last_dot(name: Seq<u8>, at: int)
    requires
        0 <= at < name.len(),
        name[at] == DOT,
        forall|i: int| at < i < name.len() ==> name[i] != DOT,
    ensures
        last_dot(name) == at,
    decreases name.len(),
{
    if at < name.len() - 1 {
        assert(name.last() != DOT);
        lemma_last_dot(name.drop_last(), at);
    }
}

proof fn lemma_no_dot(name: Seq<u8>)
    requires
        forall|i: int| 0 <= i < name.len() ==> name[i] != DOT,
    ensures
        last_dot(name) == name.len(),
    decreases name.len(),
{
    if name.len() > 0 {
        lemma_no_dot(name.drop_last());
    }
}

/// The part of the file name of `path` before its extension.
pub fn file_stem(path: &[u8]) -> (r: Option<&[u8]>)
    ensures
        match r {
            Some(stem) => stem_of(path@) == Some(stem@),
            None => stem_of(path@) is None,
        },
{
    match file_name(path) {
        None => None,
        Some(name) => {
            let at: usize = find_last_dot(name);
            if 0 < at && at < name.len() {
                Some(slice_subrange(name, 0, at))
            } else {
                Some(name)
            }
        },
    }
}

/// The extension of the file name of `path`.
pub fn extension(path: &[u8]) -> (r: Option<&[u8]>)
    ensures
        match r {
            Some(ext) => extension_of(path@) == Some(ext@),
            None => extension_of(path@) is None,
        },
{
    match file_name(path) {
        None => None,
        Some(name) => {
            let at: usize = find_last_dot(name);
            if 0 < at && at < name.len() {
                let ext = slice_subrange(name, at + 1, name.len());
                assert(ext@ =~= name@.skip(at + 1));
                Some(ext)
            } else {
                None
            }
        },
    }
}

/// `name` in the directory `dir`. A name that begins with a slash stands alone.
pub fn join(dir: &[u8], name: &[u8]) -> (path: Vec<u8>)
    ensures
        path@ == join_of(dir@, name@),
{
    let mut path: Vec<u8> = Vec::new();
    if name.len() > 0 && name[0] == SLASH {
        append(&mut path, name);
        return path;
    }
    append(&mut path, dir);
    if dir.len() > 0 && dir[dir.len() - 1] != SLASH {
        path.push(SLASH);
    }
    append(&mut path, name);
    assert(path@ =~= join_of(dir@, name@));
    path
}

/// `path` with `extension` in place of the extension of its file name. A path
/// without a file name stays as it is.
pub fn with_extension(path: &[u8], extension: &[u8]) -> (changed: Vec<u8>)
    ensures
        changed@ == with_extension_of(path@, extension@),
{
    let mut changed: Vec<u8> = Vec::new();
    match name_range(path) {
        None => {
            append(&mut changed, path);
        },
        Some((start, end)) => {
            let name = slice_subrange(path, start, end);
            let at: usize = find_last_dot(name);
            append(&mut changed, slice_subrange(path, 0, start));
            if 0 < at && at < name.len() {
                append(&mut changed, slice_subrange(name, 0, at));
            } else {
                append(&mut changed, name);
            }
            changed.push(DOT);
            append(&mut changed, extension);
            assert(trimmed(path@).subrange(0, start as int) =~= path@.subrange(0, start as int));
            assert(changed@ =~= with_extension_of(path@, extension@));
        },
    }
    changed
}

/// The directory that `path` lies in.
pub fn parent_directory(path: &[u8]) -> (dir: Vec<u8>)
    ensures
        dir@ == parent_or_dot(path@),
{
    let mut dir: Vec<u8> = Vec::new();
    match parent(path) {
        Some(found) => append(&mut dir, found),
        None => dir.push(DOT),
    }
    assert(dir@ =~= parent_or_dot(path@));
    dir
}

/// What stands behind the last slash of a path is its file name, and so is a path
/// without slashes, if it can be one.
pub proof fn law_name_behind_the_last_slash(front: Seq<u8>, name: Seq<u8>)
    requires
        is_plain_name(name),
    ensures
        file_name_of(front + seq![47u8] + name) == Some(name),
        file_name_of(name) == Some(name),
{
    assert(front + seq![47u8] + name =~= join_of(front.push(SLASH), name)) by {
        assert(name.contains(name[0]));
    }
    law_join_file_name(front.push(SLASH), name);
    law_join_file_name(Seq::empty(), name);
    assert(join_of(Seq::empty(), name) =~= name) by {
        assert(name.contains(name[0]));
    }
}

/// A slash at the end of a path names nothing, and neither does a dot that stands
/// there alone: the file name and the parent stay.
pub proof fn law_ends_that_name_nothing(path: Seq<u8>)
    requires
        path.len() > 0,
    ensures
        file_name_of(path + seq![47u8]) == file_name_of(path),
        file_name_of(path + seq![47u8, 46u8]) == file_name_of(path),
        trimmed(path).len() > 0 ==> parent_of(path + seq![47u8]) == parent_of(path),
        trimmed(path).len() > 0 ==> parent_of(path + seq![47u8, 46u8]) == parent_of(path),
{
    let slash = path + seq![47u8];
    let dot = path + seq![47u8, 46u8];
    assert(slash.drop_last() =~= path);
    assert(dot.drop_last() =~= slash);
    assert(trimmed(slash) == trimmed(path));
    assert(dot.last() == DOT && dot[dot.len() - 2] == SLASH);
    assert(trimmed(dot) == trimmed(slash));
}

/// An empty path, the root, a dot, and a path that ends in two dots have no file
/// name.
pub proof fn law_paths_without_a_name(front: Seq<u8>)
    ensures
        file_name_of(Seq::empty()) is None,
        file_name_of(seq![47u8]) is None,
        file_name_of(seq![46u8]) is None,
        file_name_of(seq![46u8, 46u8]) is None,
        file_name_of(front + seq![47u8, 46u8, 46u8]) is None,
{
    let root = seq![47u8];
    let dot = seq![46u8];
    let dots = seq![46u8, 46u8];
    let path = front + seq![47u8, 46u8, 46u8];
    assert(root.drop_last() =~= Seq::empty());
    assert(dot.drop_last() =~= Seq::empty());
    assert(trimmed(root.drop_last()).len() == 0);
    assert(trimmed(dots) == dots);
    reveal_with_fuel(last_piece_start, 3);
    assert(dots.drop_last().drop_last() =~= Seq::empty());
    assert(last_piece_start(dots) == 0);
    assert(dots.skip(0) =~= dots);
    assert(path.last() == DOT && path[path.len() - 2] == DOT);
    assert(trimmed(path) == path);
    let one = path.drop_last();
    let two = one.drop_last();
    assert(one.last() == DOT && two.last() == SLASH);
    assert(last_piece_start(path) == two.len());
    assert(path.skip(two.len() as int) =~= dots);
}

/// What stands before the last slash of a path is its parent; directly below the
/// root that is the root, and the parent of a bare name is empty.
pub proof fn law_parent_before_the_last_slash(front: Seq<u8>, name: Seq<u8>)
    requires
        is_plain_name(name),
    ensures
        front.len() > 0 && trimmed(front) == front ==> parent_of(front + seq![47u8] + name)
            == Some(front),
        parent_of(seq![47u8] + name) == Some(seq![47u8]),
        parent_of(name) == Some(Seq::<u8>::empty()),
{
    assert(name.contains(name[0]));
    let long = front + seq![47u8] + name;
    assert(long =~= join_of(front.push(SLASH), name));
    lemma_join_pieces(front.push(SLASH), name);
    let before = long.subrange(0, last_piece_start(long));
    assert(before =~= front.push(SLASH));
    assert(before.drop_last() =~= front);
    let rooted = seq![47u8] + name;
    assert(rooted =~= join_of(seq![SLASH], name));
    lemma_join_pieces(seq![SLASH], name);
    let root = rooted.subrange(0, last_piece_start(rooted));
    assert(root =~= seq![SLASH]);
    assert(root.drop_last() =~= Seq::empty());
    assert(trimmed(root) == trimmed(root.drop_last()));
    assert(root.subrange(0, 1) =~= root);
    assert(join_of(Seq::empty(), name) =~= name);
    lemma_join_pieces(Seq::empty(), name);
    assert(name.subrange(0, 0) =~= Seq::empty());
}

/// The last dot of a file name parts stem and extension, unless it stands first. A
/// new extension takes the place of the old one, or goes behind the name.
pub proof fn law_last_dot_parts_the_name(front: Seq<u8>, stem: Seq<u8>, extension: Seq<u8>)
    requires
        stem.len() > 0,
        !stem.contains(47u8),
        !extension.contains(47u8),
        !extension.contains(46u8),
        is_plain_name(stem + seq![46u8] + extension),
    ensures
        stem_of(front + seq![47u8] + stem + seq![46u8] + extension) == Some(stem),
        extension_of(front + seq![47u8] + stem + seq![46u8] + extension) == Some(extension),
        forall|new: Seq<u8>|
            #[trigger] with_extension_of(
                front + seq![47u8] + stem + seq![46u8] + extension,
                new,
            ) == front + seq![47u8] + stem + seq![46u8] + new,
{
    let name = stem + seq![46u8] + extension;
    let path = front + seq![47u8] + stem + seq![46u8] + extension;
    assert(path =~= front + seq![47u8] + name);
    law_name_behind_the_last_slash(front, name);
    assert forall|i: int| stem.len() < i < name.len() implies name[i] != DOT by {
        assert(extension.contains(extension[i - stem.len() - 1]));
    }
    lemma_last_dot(name, stem.len() as int);
    assert(name.subrange(0, stem.len() as int) =~= stem);
    assert(name.skip(stem.len() as int + 1) =~= extension);
    assert(name.contains(name[0]));
    assert(path =~= join_of(front.push(SLASH), name));
    lemma_join_pieces(front.push(SLASH), name);
    assert(path.subrange(0, last_piece_start(path)) =~= front + seq![47u8]);
}

/// A file name without a dot behind its first byte is its own stem and has no
/// extension. A new extension goes behind it.
pub proof fn law_name_without_extension(front: Seq<u8>, name: Seq<u8>)
    requires
        is_plain_name(name),
        forall|i: int| 0 < i < name.len() ==> name[i] != 46u8,
    ensures
        stem_of(front + seq![47u8] + name) == Some(name),
        extension_of(front + seq![47u8] + name) is None,
        forall|new: Seq<u8>|
            #[trigger] with_extension_of(front + seq![47u8] + name, new) == front + seq![47u8]
                + name + seq![46u8] + new,
{
    let path = front + seq![47u8] + name;
    law_name_behind_the_last_slash(front, name);
    lemma_dot_at_last_dot(name);
    assert(name.contains(name[0]));
    assert(path =~= join_of(front.push(SLASH), name));
    lemma_join_pieces(front.push(SLASH), name);
    assert(path.subrange(0, last_piece_start(path)) =~= front + seq![47u8]);
}

/// A name is joined to a directory by one slash, unless there is one already, or
/// no directory.
pub proof fn law_joined_by_one_slash(dir: Seq<u8>, name: Seq<u8>)
    requires
        is_plain_name(name),
    ensures
        dir.len() > 0 && dir.last() != 47u8 ==> join_of(dir, name) == dir + seq![47u8] + name,
        dir.len() == 0 ==> join_of(dir, name) == name,
        join_of(dir + seq![47u8], name) == dir + seq![47u8] + name,
{
    assert(name.contains(name[0]));
    assert(dir.len() == 0 ==> join_of(dir, name) =~= name);
    assert(join_of(dir + seq![47u8], name) =~= dir + seq![47u8] + name);
}

/// Trimming makes no path longer.
pub proof fn law_trimmed_is_no_longer(path: Seq<u8>)
    ensures
        trimmed(path).len() <= path.len(),
{
    lemma_trimmed_is_prefix(path);
}

} // verus!

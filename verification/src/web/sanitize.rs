//! File names that come from outside, reduced to something harmless.

use vstd::prelude::*;
use vstd::slice::slice_subrange;
use crate::text::{chars_of, text_of};

verus! {

/// The number of characters that a file name has at most.
pub const MAX_FILENAME_LEN: usize = 200;

/// Whether `c` is white space.
pub open spec fn white_space(c: char) -> bool {
    ||| '\u{9}' <= c <= '\u{d}'
    ||| c == ' '
    ||| c == '\u{85}'
    ||| c == '\u{a0}'
    ||| c == '\u{1680}'
    ||| '\u{2000}' <= c <= '\u{200a}'
    ||| c == '\u{2028}'
    ||| c == '\u{2029}'
    ||| c == '\u{202f}'
    ||| c == '\u{205f}'
    ||| c == '\u{3000}'
}

/// Whether `c` is a control character.
pub open spec fn control(c: char) -> bool {
    c <= '\u{1f}' || '\u{7f}' <= c <= '\u{9f}'
}

/// Whether `c` separates the pieces of a path.
pub open spec fn separator(c: char) -> bool {
    c == '/' || c == '\\'
}

/// Whether `c` is white space.
pub fn is_white_space(c: char) -> (b: bool)
    ensures
        b == white_space(c),
{
    ('\u{9}' <= c && c <= '\u{d}') || c == ' ' || c == '\u{85}' || c == '\u{a0}' || c == '\u{1680}'
        || ('\u{2000}' <= c && c <= '\u{200a}') || c == '\u{2028}' || c == '\u{2029}' || c
        == '\u{202f}' || c == '\u{205f}' || c == '\u{3000}'
}

/// Whether `c` is a control character.
pub fn is_control(c: char) -> (b: bool)
    ensures
        b == control(c),
{
    c <= '\u{1f}' || ('\u{7f}' <= c && c <= '\u{9f}')
}

/// What stands behind the last separator in `s`.
pub open spec fn base_of(s: Seq<char>) -> Seq<char>
    decreases s.len(),
{
    if s.len() == 0 || separator(s.last()) {
        Seq::empty()
    } else {
        base_of(s.drop_last()).push(s.last())
    }
}

/// `s` without the white space, or without the dots, at its ends.
pub open spec fn trimmed_of(s: Seq<char>, dots: bool) -> Seq<char>
    decreases s.len(),
{
    if s.len() > 0 && trimmable(s.first(), dots) {
        trimmed_of(s.drop_first(), dots)
    } else if s.len() > 0 && trimmable(s.last(), dots) {
        trimmed_of(s.drop_last(), dots)
    } else {
        s
    }
}

/// Whether `c` is trimmed: a dot where dots are, white space otherwise.
pub open spec fn trimmable(c: char, dots: bool) -> bool {
    if dots {
        c == '.'
    } else {
        white_space(c)
    }
}

/// `s` without control characters.
pub open spec fn printable(s: Seq<char>) -> Seq<char> {
    s.filter(|c: char| !control(c))
}

/// The first `n` characters of `s`, or all of them.
pub open spec fn at_most(s: Seq<char>, n: int) -> Seq<char> {
    if s.len() <= n {
        s
    } else {
        s.subrange(0, n)
    }
}

/// The file name that is made of `raw`, before it is known to be one.
pub open spec fn cleaned_of(raw: Seq<char>) -> Seq<char> {
    let base = trimmed_of(trimmed_of(base_of(raw), false), true);
    trimmed_of(at_most(printable(base), MAX_FILENAME_LEN as int), false)
}

/// The file name that is made of `raw`.
pub open spec fn sanitized(raw: Seq<char>) -> Seq<char> {
    let cleaned = cleaned_of(raw);
    if cleaned.len() == 0 || cleaned == "."@ || cleaned == ".."@ {
        "upload.bin"@
    } else {
        cleaned
    }
}

/// Whether `s` holds no separators.
pub open spec fn no_separators(s: Seq<char>) -> bool {
    forall|i: int| 0 <= i < s.len() ==> !separator(#[trigger] s[i])
}

/// Whether `s` holds no control characters.
pub open spec fn no_controls(s: Seq<char>) -> bool {
    forall|i: int| 0 <= i < s.len() ==> !control(#[trigger] s[i])
}

proof fn lemma_base(s: Seq<char>)
    ensures
        no_separators(base_of(s)),
    decreases s.len(),
{
    if s.len() > 0 && !separator(s.last()) {
        lemma_base(s.drop_last());
    }
}

proof fn lemma_trimmed(s: Seq<char>, dots: bool)
    ensures
        trimmed_of(s, dots).len() <= s.len(),
        no_separators(s) ==> no_separators(trimmed_of(s, dots)),
        no_controls(s) ==> no_controls(trimmed_of(s, dots)),
    decreases s.len(),
{
    if s.len() > 0 && trimmable(s.first(), dots) {
        lemma_trimmed(s.drop_first(), dots);
    } else if s.len() > 0 && trimmable(s.last(), dots) {
        lemma_trimmed(s.drop_last(), dots);
    }
}

proof fn lemma_printable(s: Seq<char>)
    requires
        no_separators(s),
    ensures
        no_separators(printable(s)),
        no_controls(printable(s)),
    decreases s.len(),
{
    reveal(Seq::filter);
    if s.len() > 0 {
        lemma_printable(s.drop_last());
    }
}

proof fn lemma_trimmed_ends(s: Seq<char>, dots: bool)
    ensures
        ({
            let t = trimmed_of(s, dots);
            t.len() > 0 ==> !trimmable(t.first(), dots) && !trimmable(t.last(), dots)
        }),
    decreases s.len(),
{
    if s.len() > 0 && trimmable(s.first(), dots) {
        lemma_trimmed_ends(s.drop_first(), dots);
    } else if s.len() > 0 && trimmable(s.last(), dots) {
        lemma_trimmed_ends(s.drop_last(), dots);
    }
}

/// Whatever comes from outside, the file name that is made of it is not empty,
/// not too long, and holds neither separators nor control characters. It has no
/// white space at its ends, and is neither one dot nor two.
pub proof fn law_sanitized_is_harmless(raw: Seq<char>)
    ensures
        1 <= sanitized(raw).len() <= MAX_FILENAME_LEN,
        no_separators(sanitized(raw)),
        no_controls(sanitized(raw)),
        !white_space(sanitized(raw).first()),
        !white_space(sanitized(raw).last()),
        sanitized(raw) != "."@,
        sanitized(raw) != ".."@,
{
    let base = base_of(raw);
    let inner = trimmed_of(base, false);
    let bare = trimmed_of(inner, true);
    let front = at_most(printable(bare), MAX_FILENAME_LEN as int);
    lemma_base(raw);
    lemma_trimmed(base, false);
    lemma_trimmed(inner, true);
    lemma_printable(bare);
    lemma_trimmed(front, false);
    lemma_trimmed_ends(front, false);
    reveal_strlit("upload.bin");
    reveal_strlit(".");
    reveal_strlit("..");
}

/// Whether `c` is trimmed.
fn is_trimmable(c: char, dots: bool) -> (b: bool)
    ensures
        b == trimmable(c, dots),
{
    if dots {
        c == '.'
    } else {
        is_white_space(c)
    }
}

/// What stands behind the last separator in `s`.
fn base(s: &[char]) -> (b: &[char])
    ensures
        b@ == base_of(s@),
{
    let mut start: usize = s.len();
    assert(s@.subrange(start as int, s@.len() as int) =~= Seq::<char>::empty());
    assert(s@.subrange(0, start as int) =~= s@);
    assert(base_of(s@) + Seq::<char>::empty() =~= base_of(s@));
    while start > 0 && s[start - 1] != '/' && s[start - 1] != '\\'
        invariant
            start <= s@.len(),
            base_of(s@) == base_of(s@.subrange(0, start as int)) + s@.subrange(
                start as int,
                s@.len() as int,
            ),
        decreases start,
    {
        proof {
            let front = s@.subrange(0, start as int);
            let back = s@.subrange(start as int, s@.len() as int);
            assert(front.drop_last() =~= s@.subrange(0, start - 1));
            assert(base_of(front) == base_of(front.drop_last()).push(s@[start - 1]));
            assert(base_of(front.drop_last()).push(s@[start - 1]) + back =~= base_of(
                front.drop_last(),
            ) + s@.subrange(start - 1, s@.len() as int));
        }
        start = start - 1;
    }
    proof {
        let front = s@.subrange(0, start as int);
        assert(base_of(front) == Seq::<char>::empty());
        assert(Seq::<char>::empty() + s@.subrange(start as int, s@.len() as int) =~= s@.subrange(
            start as int,
            s@.len() as int,
        ));
    }
    slice_subrange(s, start, s.len())
}

/// `s` without the white space, or without the dots, at its ends.
fn trimmed(s: &[char], dots: bool) -> (t: &[char])
    ensures
        t@ == trimmed_of(s@, dots),
{
    let mut start: usize = 0;
    let mut end: usize = s.len();
    assert(s@.subrange(0, end as int) =~= s@);
    while start < end && is_trimmable(s[start], dots)
        invariant
            start <= end == s@.len(),
            trimmed_of(s@.subrange(start as int, end as int), dots) == trimmed_of(s@, dots),
        decreases end - start,
    {
        let ghost part = s@.subrange(start as int, end as int);
        assert(part.drop_first() =~= s@.subrange(start + 1, end as int));
        start = start + 1;
    }
    while start < end && is_trimmable(s[end - 1], dots)
        invariant
            start <= end <= s@.len(),
            start < end ==> !trimmable(s@[start as int], dots),
            trimmed_of(s@.subrange(start as int, end as int), dots) == trimmed_of(s@, dots),
        decreases end - start,
    {
        let ghost part = s@.subrange(start as int, end as int);
        assert(part.drop_last() =~= s@.subrange(start as int, end - 1));
        end = end - 1;
    }
    slice_subrange(s, start, end)
}

/// The first printable characters of `s`, as many as a file name may have.
fn printable_front(s: &[char]) -> (front: Vec<char>)
    ensures
        front@ == at_most(printable(s@), MAX_FILENAME_LEN as int),
{
    let ghost keep = |c: char| !control(c);
    let mut front: Vec<char> = Vec::new();
    let mut i: usize = 0;
    proof {
        reveal(Seq::filter);
        assert(s@.subrange(0, 0).filter(keep) =~= Seq::<char>::empty());
    }
    while i < s.len() && front.len() < MAX_FILENAME_LEN
        invariant
            i <= s@.len(),
            keep == (|c: char| !control(c)),
            front@ == s@.subrange(0, i as int).filter(keep),
            front@.len() <= MAX_FILENAME_LEN,
        decreases s@.len() - i,
    {
        proof {
            let with = s@.subrange(0, i + 1);
            assert(with.drop_last() =~= s@.subrange(0, i as int));
            assert(with.last() == s@[i as int]);
            reveal(Seq::filter);
        }
        if !is_control(s[i]) {
            front.push(s[i]);
        }
        i = i + 1;
    }
    proof {
        let rest = s@.subrange(i as int, s@.len() as int);
        assert(s@ =~= s@.subrange(0, i as int) + rest);
        Seq::<char>::filter_distributes_over_add(s@.subrange(0, i as int), rest, keep);
        if i == s@.len() {
            assert(s@.subrange(0, i as int) =~= s@);
        } else {
            let all = printable(s@);
            assert(all == front@ + rest.filter(keep));
            assert(all.subrange(0, MAX_FILENAME_LEN as int) =~= front@);
            if all.len() <= MAX_FILENAME_LEN {
                assert(all =~= front@);
            }
        }
    }
    front
}

/// The file name that is made of `raw`: the last piece of it, without white
/// space and dots at its ends, without control characters, and not too long. A
/// name of which nothing is left is replaced.
pub fn sanitize_filename(raw: &str) -> (r: Option<String>)
    ensures
        r matches Some(name) && name@ == sanitized(raw@),
{
    let chars = chars_of(raw);
    let base = trimmed(trimmed(base(chars.as_slice()), false), true);
    let front = printable_front(base);
    let cleaned = text_of(trimmed(front.as_slice(), false));
    if cleaned.as_str().is_empty() || cleaned == ".".to_owned() || cleaned == "..".to_owned() {
        return Some("upload.bin".to_owned());
    }
    Some(cleaned)
}

proof fn lemma_base_behind(front: Seq<char>, separator: char, rest: Seq<char>)
    requires
        separator == '/' || separator == '\\',
    ensures
        base_of(front + seq![separator] + rest) == base_of(rest),
    decreases rest.len(),
{
    let whole = front + seq![separator] + rest;
    if rest.len() == 0 {
        assert(whole.last() == separator);
    } else {
        assert(whole.drop_last() =~= front + seq![separator] + rest.drop_last());
        assert(whole.last() == rest.last());
        lemma_base_behind(front, separator, rest.drop_last());
    }
}

proof fn lemma_base_whole(s: Seq<char>)
    requires
        no_separators(s),
    ensures
        base_of(s) == s,
    decreases s.len(),
{
    if s.len() > 0 {
        assert forall|i: int| 0 <= i < s.drop_last().len() implies !separator(
            #[trigger] s.drop_last()[i],
        ) by {
            assert(!separator(s[i]));
        }
        assert(!separator(s[s.len() - 1]));
        lemma_base_whole(s.drop_last());
        assert(s.drop_last().push(s.last()) =~= s);
    }
}

proof fn lemma_trimmed_push(s: Seq<char>, c: char, dots: bool)
    requires
        trimmable(c, dots),
    ensures
        trimmed_of(s.push(c), dots) == trimmed_of(s, dots),
    decreases s.len(),
{
    let longer = s.push(c);
    if s.len() == 0 {
        assert(longer.drop_first() =~= s);
    } else if trimmable(s.first(), dots) {
        assert(longer.drop_first() =~= s.drop_first().push(c));
        lemma_trimmed_push(s.drop_first(), c, dots);
    } else {
        assert(longer.drop_last() =~= s);
    }
}

proof fn lemma_trimmed_front(s: Seq<char>, c: char, dots: bool)
    requires
        trimmable(c, dots),
    ensures
        trimmed_of(seq![c] + s, dots) == trimmed_of(s, dots),
{
    assert((seq![c] + s).drop_first() =~= s);
}

proof fn lemma_all_printable(s: Seq<char>)
    requires
        no_controls(s),
    ensures
        printable(s) == s,
    decreases s.len(),
{
    reveal(Seq::filter);
    if s.len() > 0 {
        assert forall|i: int| 0 <= i < s.drop_last().len() implies !control(
            #[trigger] s.drop_last()[i],
        ) by {
            assert(!control(s[i]));
        }
        assert(!control(s[s.len() - 1]));
        lemma_all_printable(s.drop_last());
        assert(s.drop_last().push(s.last()) =~= s);
    } else {
        assert(printable(s) =~= s);
    }
}

/// Whatever stands before the last separator counts for nothing.
pub proof fn law_last_piece_counts(front: Seq<char>, separator: char, rest: Seq<char>)
    requires
        separator == '/' || separator == '\\',
    ensures
        sanitized(front + seq![separator] + rest) == sanitized(rest),
{
    lemma_base_behind(front, separator, rest);
}

/// Whether `c` may stand at an end of a file name: no white space, no dot, no
/// separator, and no control character.
pub open spec fn may_stand_at_end(c: char) -> bool {
    !white_space(c) && c != '.' && c != '/' && c != '\\' && c > '\u{1f}' && !('\u{7f}' <= c
        <= '\u{9f}')
}

/// A name that has nothing to be cleaned is kept as it is, up to its full length;
/// what is too long is cut behind the 200th character.
pub proof fn law_good_names_are_kept(raw: Seq<char>)
    requires
        raw.len() > 0,
        forall|i: int| 0 <= i < raw.len() ==> {
            let c = #[trigger] raw[i];
            c != '/' && c != '\\' && c > '\u{1f}' && !('\u{7f}' <= c <= '\u{9f}')
        },
        may_stand_at_end(raw[0]),
        may_stand_at_end(raw[raw.len() - 1]),
    ensures
        raw.len() <= 200 ==> sanitized(raw) == raw,
        raw.len() > 200 && !white_space(raw[199]) ==> sanitized(raw) == raw.subrange(0, 200),
{
    reveal_strlit(".");
    reveal_strlit("..");
    assert(no_separators(raw));
    assert(no_controls(raw));
    lemma_base_whole(raw);
    lemma_all_printable(raw);
    assert(trimmed_of(raw, false) == raw);
    assert(trimmed_of(raw, true) == raw);
    let front = at_most(raw, 200);
    assert(front[0] == raw[0]);
    if raw.len() <= 200 || !white_space(raw[199]) {
        assert(trimmed_of(front, false) == front);
        assert("."@[0] == '.' && ".."@[0] == '.');
    }
}

/// White space at the ends counts for nothing, and neither do dots where no white
/// space stands beside them.
pub proof fn law_ends_count_for_nothing(raw: Seq<char>, space: char)
    requires
        white_space(space),
        no_separators(raw),
    ensures
        sanitized(raw.push(space)) == sanitized(raw),
        sanitized(seq![space] + raw) == sanitized(raw),
        raw.len() > 0 && !white_space(raw.first()) && !white_space(raw.last()) ==> sanitized(
            raw.push('.'),
        ) == sanitized(raw) && sanitized(seq!['.'] + raw) == sanitized(raw),
{
    let behind = raw.push(space);
    let before = seq![space] + raw;
    let dot_behind = raw.push('.');
    let dot_before = seq!['.'] + raw;
    assert(no_separators(behind));
    assert(no_separators(before));
    assert(no_separators(dot_behind));
    assert(no_separators(dot_before));
    lemma_base_whole(raw);
    lemma_base_whole(behind);
    lemma_base_whole(before);
    lemma_base_whole(dot_behind);
    lemma_base_whole(dot_before);
    lemma_trimmed_push(raw, space, false);
    lemma_trimmed_front(raw, space, false);
    lemma_trimmed_push(raw, '.', true);
    lemma_trimmed_front(raw, '.', true);
    if raw.len() > 0 && !white_space(raw.first()) && !white_space(raw.last()) {
        assert(trimmed_of(raw, false) == raw);
        assert(trimmed_of(dot_behind, false) == dot_behind);
        assert(trimmed_of(dot_before, false) == dot_before);
    }
}

/// Control characters between others are left out, and nothing else is.
pub proof fn law_only_controls_are_left_out(raw: Seq<char>)
    requires
        raw.len() > 0,
        no_separators(raw),
        may_stand_at_end(raw[0]),
        may_stand_at_end(raw[raw.len() - 1]),
    ensures
        ({
            let kept = raw.filter(|c: char| c > '\u{1f}' && !('\u{7f}' <= c <= '\u{9f}'));
            kept.len() <= 200 ==> sanitized(raw) == kept
        }),
{
    reveal_strlit(".");
    reveal_strlit("..");
    let keep = |c: char| c > '\u{1f}' && !('\u{7f}' <= c <= '\u{9f}');
    assert(keep =~= |c: char| !control(c));
    let kept = raw.filter(keep);
    lemma_base_whole(raw);
    assert(trimmed_of(raw, false) == raw);
    assert(trimmed_of(raw, true) == raw);
    lemma_ends_stay(raw);
    if kept.len() <= 200 {
        assert(trimmed_of(kept, false) == kept);
        assert("."@[0] == '.' && ".."@[0] == '.');
    }
}

proof fn lemma_ends_stay(raw: Seq<char>)
    requires
        raw.len() > 0,
        !control(raw[0]),
        !control(raw[raw.len() - 1]),
    ensures
        printable(raw).len() > 0,
        printable(raw)[0] == raw[0],
        printable(raw).last() == raw.last(),
{
    reveal(Seq::filter);
    let keep = |c: char| !control(c);
    let first = raw.subrange(0, 1);
    let rest = raw.skip(1);
    assert(raw =~= first + rest);
    Seq::<char>::filter_distributes_over_add(first, rest, keep);
    assert(first.drop_last() =~= Seq::empty());
    assert(first.filter(keep) =~= first);
}

/// A name of which nothing is left, because it is empty or consists of white space
/// or of dots, is replaced.
pub proof fn law_empty_names_are_replaced(raw: Seq<char>)
    requires
        (forall|i: int| 0 <= i < raw.len() ==> white_space(#[trigger] raw[i])) || (forall|i: int|
            0 <= i < raw.len() ==> #[trigger] raw[i] == '.'),
    ensures
        sanitized(raw) == "upload.bin"@,
{
    if raw.len() == 0 {
        assert(base_of(raw) =~= Seq::empty());
        reveal(Seq::filter);
    } else if white_space(raw[0]) {
        assert(forall|i: int| 0 <= i < raw.len() ==> white_space(#[trigger] raw[i]));
        assert(no_separators(raw));
        lemma_base_whole(raw);
        lemma_trimmed_away(raw, false);
    } else {
        assert(no_separators(raw));
        lemma_base_whole(raw);
        assert(raw[raw.len() - 1] == '.');
        assert(trimmed_of(raw, false) == raw);
        lemma_trimmed_away(raw, true);
    }
    lemma_all_printable(Seq::empty());
}

proof fn lemma_trimmed_away(s: Seq<char>, dots: bool)
    requires
        forall|i: int| 0 <= i < s.len() ==> trimmable(#[trigger] s[i], dots),
    ensures
        trimmed_of(s, dots).len() == 0,
        trimmed_of(s, dots) == Seq::<char>::empty(),
    decreases s.len(),
{
    if s.len() > 0 {
        lemma_trimmed_away(s.drop_first(), dots);
    } else {
        assert(s =~= Seq::empty());
    }
}

/// Letters, digits, and everything else that is visible in ASCII is neither white
/// space nor a control character, and neither is anything above the last white
/// space. Tabs, line ends and the space are white space, and the control characters
/// are those of ASCII and of Latin-1.
pub proof fn law_visible_characters(c: char)
    ensures
        '!' <= c <= '~' ==> !white_space(c) && !control(c),
        c > '\u{3000}' ==> !white_space(c) && !control(c),
        c == ' ' || '\u{9}' <= c <= '\u{d}' || c == '\u{a0}' || c == '\u{3000}' ==> white_space(c),
        control(c) <==> c < ' ' || '\u{7f}' <= c <= '\u{9f}',
        white_space(c) ==> c != '.' && c != '/' && c != '\\',
{
}

} // verus!

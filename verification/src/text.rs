//! Text assembled from pieces, decimal numbers, and text in UTF-8.

use vstd::prelude::*;
use vstd::utf8::{decode_utf8, encode_utf8, valid_utf8};

verus! {

/// `String::push` puts one character behind the others.
pub assume_specification[ String::push ](text: &mut String, c: char)
    ensures
        final(text)@ == old(text)@.push(c),
;

/// The error of `std::str::from_utf8`.
#[verifier::external_type_specification]
#[verifier::external_body]
pub struct ExUtf8Error(std::str::Utf8Error);

/// `std::str::from_utf8` gives the text that the bytes encode when they are
/// valid UTF-8, and an error otherwise.
#[verifier::external_body]
pub(crate) fn str_from_utf8(bytes: &[u8]) -> (r: Result<&str, std::str::Utf8Error>)
    ensures
        r is Ok <==> valid_utf8(bytes@),
        r matches Ok(s) ==> s@ == decode_utf8(bytes@),
{
    std::str::from_utf8(bytes)
}

/// The text that `String::from_utf8_lossy` makes of `bytes`.
pub uninterp spec fn utf8_lossy(bytes: Seq<u8>) -> Seq<char>;

/// The text in `bytes`. What is not UTF-8 in them is replaced.
pub open spec fn lossy_of(bytes: Seq<u8>) -> Seq<char> {
    if valid_utf8(bytes) {
        decode_utf8(bytes)
    } else {
        utf8_lossy(bytes)
    }
}

/// `String::from_utf8_lossy` keeps text in valid UTF-8 as it is, and puts the
/// replacement character, which takes three bytes, in the place of every
/// invalid sequence of bytes.
#[verifier::external_body]
pub(crate) fn lossy_text(bytes: &[u8]) -> (text: String)
    ensures
        text@ == utf8_lossy(bytes@),
        valid_utf8(bytes@) ==> text@ == decode_utf8(bytes@),
        encode_utf8(text@).len() <= 3 * bytes@.len(),
{
    String::from_utf8_lossy(bytes).into_owned()
}

/// The decimal digit `d`.
pub open spec fn digit_char(d: nat) -> char {
    (48 + d) as char
}

/// The decimal digits of `n`, without leading zeros.
pub open spec fn decimal_digits(n: nat) -> Seq<char>
    decreases n,
{
    if n < 10 {
        seq![digit_char(n)]
    } else {
        decimal_digits(n / 10).push(digit_char(n % 10))
    }
}

/// The decimal digits of `n`, without leading zeros.
pub fn decimal(n: u64) -> (text: String)
    ensures
        text@ == decimal_digits(n as nat),
    decreases n,
{
    if n < 10 {
        let mut text = String::new();
        text.push((48 + n as u8) as char);
        assert(text@ =~= decimal_digits(n as nat));
        text
    } else {
        let mut text = decimal(n / 10);
        text.push((48 + (n % 10) as u8) as char);
        text
    }
}

/// `a` followed by `b`.
pub fn joined(a: &str, b: &str) -> (text: String)
    ensures
        text@ == a@ + b@,
{
    let mut text = a.to_owned();
    text.append(b);
    text
}

/// The characters of `text`.
pub fn chars_of(text: &str) -> (chars: Vec<char>)
    ensures
        chars@ == text@,
{
    let mut chars: Vec<char> = Vec::new();
    for c in it: text.chars()
        invariant
            it.seq() == text@,
            chars@ == text@.subrange(0, it.index() as int),
    {
        proof {
            assert(text@.subrange(0, it.index() + 1) =~= text@.subrange(0, it.index() as int).push(
                c,
            ));
        }
        chars.push(c);
    }
    assert(text@.subrange(0, text@.len() as int) =~= text@);
    chars
}

/// The text that consists of `chars`.
pub fn text_of(chars: &[char]) -> (text: String)
    ensures
        text@ == chars@,
{
    let mut text = String::new();
    let mut i: usize = 0;
    assert(chars@.subrange(0, 0) =~= Seq::<char>::empty());
    while i < chars.len()
        invariant
            i <= chars@.len(),
            text@ == chars@.subrange(0, i as int),
        decreases chars@.len() - i,
    {
        assert(chars@.subrange(0, i + 1) =~= chars@.subrange(0, i as int).push(chars@[i as int]));
        text.push(chars[i]);
        i = i + 1;
    }
    assert(chars@.subrange(0, i as int) =~= chars@);
    text
}

/// A character takes up at most four bytes in UTF-8.
pub proof fn lemma_utf8_len(text: Seq<char>)
    ensures
        text.len() <= encode_utf8(text).len() <= 4 * text.len(),
    decreases text.len(),
{
    if text.len() > 0 {
        lemma_utf8_len(text.drop_first());
    }
}

/// The number that the decimal digits `digits` stand for.
pub open spec fn decimal_value(digits: Seq<char>) -> nat
    decreases digits.len(),
{
    if digits.len() == 0 {
        0
    } else {
        10 * decimal_value(digits.drop_last()) + (digits.last() as nat - 48) as nat
    }
}

/// `text` without a plus sign in front.
pub open spec fn unsigned(text: Seq<char>) -> Seq<char> {
    if text.len() > 0 && text[0] == '+' {
        text.drop_first()
    } else {
        text
    }
}

/// The number that `text` stands for, if it is a decimal number that is not
/// above `max`. A plus sign may stand in front.
pub open spec fn number_of(text: Seq<char>, max: u64) -> Option<u64> {
    let digits = unsigned(text);
    if digits.len() > 0 && (forall|i: int| 0 <= i < digits.len() ==> '0' <= #[trigger] digits[i] <= '9')
        && decimal_value(digits) <= max {
        Some(decimal_value(digits) as u64)
    } else {
        None
    }
}

proof fn lemma_value_grows(digits: Seq<char>, n: int)
    requires
        0 <= n <= digits.len(),
    ensures
        decimal_value(digits.subrange(0, n)) <= decimal_value(digits),
    decreases digits.len(),
{
    if n < digits.len() {
        lemma_value_grows(digits.drop_last(), n);
        assert(digits.drop_last().subrange(0, n) =~= digits.subrange(0, n));
    } else {
        assert(digits.subrange(0, n) =~= digits);
    }
}

/// The number that `text` stands for, if it is a decimal number that is not
/// above `max`. A plus sign may stand in front.
pub fn parse_number(text: &str, max: u64) -> (r: Option<u64>)
    ensures
        r == number_of(text@, max),
{
    let chars = chars_of(text);
    let start: usize = if chars.len() > 0 && chars[0] == '+' {
        1
    } else {
        0
    };
    let ghost digits = unsigned(text@);
    assert(digits =~= chars@.subrange(start as int, chars@.len() as int));
    if chars.len() == start {
        return None;
    }
    let mut value: u64 = 0;
    let mut i: usize = start;
    assert(digits.subrange(0, 0) =~= Seq::<char>::empty());
    while i < chars.len()
        invariant
            start <= i <= chars@.len(),
            digits == chars@.subrange(start as int, chars@.len() as int),
            digits == unsigned(text@),
            digits.len() > 0,
            forall|j: int| 0 <= j < i - start ==> '0' <= #[trigger] digits[j] <= '9',
            value == decimal_value(digits.subrange(0, i - start)),
            value <= max,
        decreases chars@.len() - i,
    {
        let c = chars[i];
        assert(digits[i - start] == c);
        if c < '0' || c > '9' {
            return None;
        }
        let digit: u64 = (c as u32 - 48) as u64;
        proof {
            let with = digits.subrange(0, i - start + 1);
            assert(with.drop_last() =~= digits.subrange(0, i - start));
            assert(with.last() == c);
            lemma_value_grows(digits, i - start + 1);
        }
        match value.checked_mul(10) {
            Some(tens) => match tens.checked_add(digit) {
                Some(sum) => {
                    value = sum;
                },
                None => return None,
            },
            None => return None,
        }
        if value > max {
            return None;
        }
        i = i + 1;
    }
    assert(digits.subrange(0, i - start) =~= digits);
    Some(value)
}

/// One more digit behind a number makes it ten times as large, and adds the digit.
/// The digits up to that one stand for a number that is not above the limit, too.
pub proof fn law_digit_counts(text: Seq<char>, digit: char, max: u64)
    requires
        text.len() > 0,
        forall|i: int| 0 <= i < text.len() ==> '0' <= #[trigger] text[i] <= '9',
        '0' <= digit <= '9',
    ensures
        number_of(text.push(digit), max) == match number_of(text, max) {
            Some(n) => if 10 * n + (digit as int - 48) <= max {
                Some((10 * n + (digit as int - 48)) as u64)
            } else {
                None
            },
            None => None,
        },
{
    let longer = text.push(digit);
    assert(longer.drop_last() =~= text);
    assert(text[0] != '+' && longer[0] == text[0]);
    assert forall|i: int| 0 <= i < longer.len() implies '0' <= #[trigger] longer[i] <= '9' by {
        if i < text.len() {
            assert(longer[i] == text[i]);
        }
    }
}

/// One digit stands for itself.
pub proof fn law_single_digit(digit: char, max: u64)
    requires
        '0' <= digit <= '9',
        digit as int - 48 <= max,
    ensures
        number_of(seq![digit], max) == Some((digit as int - 48) as u64),
{
    let text = seq![digit];
    assert(text.drop_last() =~= Seq::empty());
    assert(decimal_value(text.drop_last()) == 0);
}

/// A plus sign in front changes nothing. Without digits, and with anything else
/// among them, a text stands for no number.
pub proof fn law_only_digits_are_numbers(text: Seq<char>, max: u64)
    ensures
        text.len() > 0 && text[0] != '+' ==> number_of(seq!['+'] + text, max) == number_of(
            text,
            max,
        ),
        text.len() == 0 || text == seq!['+'] ==> number_of(text, max) is None,
        forall|i: int|
            0 <= i < text.len() && !('0' <= #[trigger] text[i] <= '9') && !(i == 0 && text[i]
                == '+') ==> number_of(text, max) is None,
{
    if text.len() > 0 && text[0] != '+' {
        assert((seq!['+'] + text).drop_first() =~= text);
    }
    assert forall|i: int|
        0 <= i < text.len() && !('0' <= #[trigger] text[i] <= '9') && !(i == 0 && text[i]
            == '+') implies number_of(text, max) is None by {
        let digits = unsigned(text);
        let j: int = if text[0] == '+' {
            i - 1
        } else {
            i
        };
        assert(digits[j] == text[i]);
    }
}

/// The digits of a number are digits, the first of them is no zero where there are
/// more, and read as a number they give the number back.
pub proof fn law_digits_give_number(n: nat, max: u64)
    ensures
        decimal_digits(n).len() > 0,
        forall|i: int| 0 <= i < decimal_digits(n).len() ==> '0' <= #[trigger] decimal_digits(n)[i]
            <= '9',
        decimal_digits(n).len() > 1 ==> decimal_digits(n)[0] != '0',
        n >= 10 ==> decimal_digits(n).len() > 1,
        n <= max ==> number_of(decimal_digits(n), max) == Some(n as u64),
        n > max ==> number_of(decimal_digits(n), max) is None,
{
    lemma_digits(n);
    assert(decimal_digits(n)[0] != '+');
}

proof fn lemma_digits(n: nat)
    ensures
        decimal_digits(n).len() > 0,
        forall|i: int| 0 <= i < decimal_digits(n).len() ==> '0' <= #[trigger] decimal_digits(n)[i]
            <= '9',
        n > 0 ==> decimal_digits(n)[0] != '0',
        n >= 10 ==> decimal_digits(n).len() > 1,
        n < 10 ==> decimal_digits(n).len() == 1,
        decimal_value(decimal_digits(n)) == n,
    decreases n,
{
    let digits = decimal_digits(n);
    if n < 10 {
        assert(digits.drop_last() =~= Seq::empty());
        assert(decimal_value(digits.drop_last()) == 0);
    } else {
        lemma_digits(n / 10);
        assert(digits.drop_last() =~= decimal_digits(n / 10));
        assert(digits[0] == decimal_digits(n / 10)[0]);
        assert forall|i: int| 0 <= i < digits.len() implies '0' <= #[trigger] digits[i] <= '9' by {
            if i < digits.len() - 1 {
                assert(digits[i] == decimal_digits(n / 10)[i]);
            }
        }
    }
}

} // verus!

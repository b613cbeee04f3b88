//! Names for new files: random names for ciphertexts, and numbered variants of
//! a path that is taken.

use vstd::prelude::*;
use vstd::utf8::{encode_utf8, encode_utf8_decode_utf8, is_ascii_chars_encode_utf8, valid_utf8};
use crate::bytes::{append, copied};
use crate::crypto::primitives::ascii_alphanumeric;
use crate::crypto::random_name;
use crate::fsops::error::{FileError, FileErrorView, FsError};
use crate::paths::{
    extension, extension_of, file_name_of, file_stem, is_plain_name, join, join_of,
    law_file_name_is_plain, law_file_name_stays_text, law_join_file_name, law_join_parent,
    law_last_dot_parts_the_name, law_name_behind_the_last_slash, law_name_without_extension,
    law_parent_before_the_last_slash, law_trimmed_is_no_longer, lemma_dot_at_last_dot, parent,
    parent_of, parent_or_dot, stem_of, trimmed, DOT, SLASH,
};
use crate::text::{decimal, decimal_digits, str_from_utf8};

pub use crate::crypto::key::{is_random_name, RANDOM_NAME_LEN};

verus! {

/// The number of random names that are tried for a ciphertext.
pub const MAX_NAME_ATTEMPTS: usize = 64;

/// The number from which on no variant of a path is tried.
pub const VARIANT_LIMIT: u64 = 10000;

/// The path of the ciphertext `name` in `dir`.
pub open spec fn ciphertext_path_of(dir: Seq<u8>, name: Seq<char>) -> Seq<u8> {
    join_of(dir, encode_utf8(name) + encode_utf8(".enc"@))
}

/// The path of the temporary file `name` in `dir`.
pub open spec fn temporary_path_of(dir: Seq<u8>, name: Seq<char>) -> Seq<u8> {
    join_of(dir, encode_utf8("."@) + encode_utf8(name) + encode_utf8(".tmp"@))
}

/// `bytes` where they are UTF-8.
pub open spec fn utf8_only(bytes: Option<Seq<u8>>) -> Option<Seq<u8>> {
    match bytes {
        Some(b) => if valid_utf8(b) {
            Some(b)
        } else {
            None
        },
        None => None,
    }
}

/// The file name with the number `n` behind `stem`.
pub open spec fn numbered_name(stem: Seq<u8>, n: nat, ext: Option<Seq<u8>>) -> Seq<u8> {
    let front = stem + encode_utf8("_"@) + encode_utf8(decimal_digits(n));
    match ext {
        Some(e) => front + encode_utf8("."@) + e,
        None => front,
    }
}

/// The variant of `path` to try when `taken` variants, `path` itself the first
/// of them, were found to be taken.
pub open spec fn unique_path_of(path: Seq<u8>, taken: u64) -> Result<Seq<u8>, FileErrorView> {
    if taken == 0 {
        Ok(path)
    } else {
        match (parent_of(path), utf8_only(stem_of(path))) {
            (None, _) => Err(FsError::InvalidPath),
            (_, None) => Err(FsError::InvalidName),
            (Some(dir), Some(stem)) => if taken < VARIANT_LIMIT {
                Ok(join_of(dir, numbered_name(stem, taken as nat, utf8_only(extension_of(path)))))
            } else {
                Err(FsError::TooManyDuplicates)
            },
        }
    }
}

proof fn lemma_digits_injective(a: nat, b: nat)
    requires
        decimal_digits(a) == decimal_digits(b),
    ensures
        a == b,
    decreases a,
{
    let da = decimal_digits(a);
    let db = decimal_digits(b);
    if a < 10 && b < 10 {
        assert(da[0] as int == 48 + a && db[0] as int == 48 + b);
    } else if a >= 10 && b >= 10 {
        assert(da.last() as int == 48 + a % 10 && db.last() as int == 48 + b % 10);
        assert(da.drop_last() =~= decimal_digits(a / 10));
        assert(db.drop_last() =~= decimal_digits(b / 10));
        lemma_digits_injective(a / 10, b / 10);
        assert(a == 10 * (a / 10) + a % 10 && b == 10 * (b / 10) + b % 10);
    } else if a < 10 {
        lemma_digits_not_empty(b / 10);
        assert(da.len() == 1 && db.len() == decimal_digits(b / 10).len() + 1);
    } else {
        lemma_digits_not_empty(a / 10);
        assert(db.len() == 1 && da.len() == decimal_digits(a / 10).len() + 1);
    }
}

proof fn lemma_digits_not_empty(n: nat)
    ensures
        decimal_digits(n).len() > 0,
        forall|i: int| 0 <= i < decimal_digits(n).len() ==> '0' <= #[trigger] decimal_digits(n)[i] <= '9',
    decreases n,
{
    if n >= 10 {
        lemma_digits_not_empty(n / 10);
    }
}

/// The digits of a number in UTF-8.
proof fn lemma_digit_bytes(n: nat)
    ensures
        encode_utf8(decimal_digits(n)).len() == decimal_digits(n).len() > 0,
        forall|i: int|
            0 <= i < encode_utf8(decimal_digits(n)).len() ==> 48 <= #[trigger] encode_utf8(
                decimal_digits(n),
            )[i] <= 57,
{
    let digits = decimal_digits(n);
    lemma_digits_not_empty(n);
    is_ascii_chars_encode_utf8(digits);
    assert forall|i: int| 0 <= i < encode_utf8(digits).len() implies 48 <= #[trigger] encode_utf8(
        digits,
    )[i] <= 57 by {
        assert(digits[i] as u8 == encode_utf8(digits)[i]);
    }
}

/// The pieces of text that names are made of, in UTF-8.
proof fn lemma_name_pieces()
    ensures
        encode_utf8("_"@) == seq![95u8],
        encode_utf8("."@) == seq![DOT],
        encode_utf8(".enc"@) == seq![DOT, 101u8, 110u8, 99u8],
        encode_utf8(".tmp"@) == seq![DOT, 116u8, 109u8, 112u8],
{
    reveal_strlit("_");
    reveal_strlit(".");
    reveal_strlit(".enc");
    reveal_strlit(".tmp");
    is_ascii_chars_encode_utf8("_"@);
    is_ascii_chars_encode_utf8("."@);
    is_ascii_chars_encode_utf8(".enc"@);
    is_ascii_chars_encode_utf8(".tmp"@);
    assert(encode_utf8("_"@) =~= seq![95u8]);
    assert(encode_utf8("."@) =~= seq![DOT]);
    assert(encode_utf8(".enc"@) =~= seq![DOT, 101u8, 110u8, 99u8]);
    assert(encode_utf8(".tmp"@) =~= seq![DOT, 116u8, 109u8, 112u8]);
}

proof fn lemma_numbered_name_is_plain(stem: Seq<u8>, n: nat, ext: Option<Seq<u8>>)
    requires
        !stem.contains(SLASH),
        ext matches Some(e) ==> !e.contains(SLASH),
    ensures
        is_plain_name(numbered_name(stem, n, ext)),
{
    let name = numbered_name(stem, n, ext);
    let digits = encode_utf8(decimal_digits(n));
    let k = stem.len() as int;
    lemma_name_pieces();
    lemma_digit_bytes(n);
    assert(name[k] == 95u8);
    assert forall|i: int| 0 <= i < name.len() implies name[i] != SLASH by {
        if i < k {
            assert(stem.contains(stem[i]));
        } else if k < i && i < k + 1 + digits.len() {
            assert(name[i] == digits[i - k - 1]);
        } else if i > k + 1 + digits.len() {
            let e = ext->Some_0;
            assert(name[i] == e[i - k - 2 - digits.len()]);
            assert(e.contains(e[i - k - 2 - digits.len()]));
        }
    }
    if name == seq![DOT] {
        assert(name.len() == 1);
    }
    if name == seq![DOT, DOT] {
        assert(name.len() == 2);
        assert(name[0] == DOT);
    }
}

proof fn lemma_parts_of_name(path: Seq<u8>)
    ensures
        stem_of(path) matches Some(stem) ==> !stem.contains(SLASH),
        extension_of(path) matches Some(e) ==> !e.contains(SLASH),
{
    law_file_name_is_plain(path);
    if let Some(name) = file_name_of(path) {
        let stem = stem_of(path)->Some_0;
        assert forall|i: int| 0 <= i < stem.len() implies stem[i] != SLASH by {
            assert(name.contains(name[i]));
        }
        if let Some(e) = extension_of(path) {
            assert forall|i: int| 0 <= i < e.len() implies e[i] != SLASH by {
                assert(name.contains(name[name.len() - e.len() + i]));
            }
        }
    }
}

/// Every variant of a path but the path itself lies in the same directory.
pub proof fn law_variants_stay(path: Seq<u8>, taken: u64)
    requires
        taken > 0,
        unique_path_of(path, taken) is Ok,
    ensures
        parent_of(path) == Some(parent_or_dot(path)),
        parent_of(unique_path_of(path, taken)->Ok_0) == parent_of(path),
{
    lemma_parts_of_name(path);
    let name = numbered_name(
        stem_of(path)->Some_0,
        taken as nat,
        utf8_only(extension_of(path)),
    );
    lemma_numbered_name_is_plain(
        stem_of(path)->Some_0,
        taken as nat,
        utf8_only(extension_of(path)),
    );
    law_join_parent(path, name);
}

/// A numbered variant of a path is not the path itself.
proof fn lemma_variant_is_new(path: Seq<u8>, n: u64)
    requires
        n > 0,
        unique_path_of(path, n) is Ok,
    ensures
        unique_path_of(path, n)->Ok_0 != path,
{
    let stem = stem_of(path)->Some_0;
    let ext = utf8_only(extension_of(path));
    let name = file_name_of(path)->Some_0;
    let numbered = numbered_name(stem, n as nat, ext);
    lemma_parts_of_name(path);
    lemma_numbered_name_is_plain(stem, n as nat, ext);
    law_join_file_name(parent_of(path)->Some_0, numbered);
    lemma_name_pieces();
    lemma_dot_at_last_dot(name);
    assert(numbered[stem.len() as int] == 95u8);
}

/// No variant is tried twice.
pub proof fn law_variants_distinct(path: Seq<u8>, a: u64, b: u64)
    requires
        a != b,
        unique_path_of(path, a) is Ok,
        unique_path_of(path, b) is Ok,
    ensures
        unique_path_of(path, a)->Ok_0 != unique_path_of(path, b)->Ok_0,
{
    if a == 0 {
        lemma_variant_is_new(path, b);
    } else if b == 0 {
        lemma_variant_is_new(path, a);
    } else {
        lemma_numbered_distinct(path, a, b);
    }
}

proof fn lemma_numbered_distinct(path: Seq<u8>, a: u64, b: u64)
    requires
        0 < a,
        0 < b,
        a != b,
        unique_path_of(path, a) is Ok,
        unique_path_of(path, b) is Ok,
    ensures
        unique_path_of(path, a)->Ok_0 != unique_path_of(path, b)->Ok_0,
{
    let dir = parent_of(path)->Some_0;
    let stem = stem_of(path)->Some_0;
    let ext = utf8_only(extension_of(path));
    let na = numbered_name(stem, a as nat, ext);
    let nb = numbered_name(stem, b as nat, ext);
    lemma_parts_of_name(path);
    lemma_numbered_name_is_plain(stem, a as nat, ext);
    lemma_numbered_name_is_plain(stem, b as nat, ext);
    if join_of(dir, na) == join_of(dir, nb) {
        let da = encode_utf8(decimal_digits(a as nat));
        let db = encode_utf8(decimal_digits(b as nat));
        let k = stem.len() + encode_utf8("_"@).len();
        assert(na.contains(na[0]) && nb.contains(nb[0]));
        assert(na[0] != SLASH && nb[0] != SLASH);
        let gap: int = if dir.len() == 0 || dir.last() == SLASH {
            0
        } else {
            1
        };
        assert(join_of(dir, na).len() == dir.len() + gap + na.len());
        assert(join_of(dir, nb).len() == dir.len() + gap + nb.len());
        assert(na.len() == nb.len());
        let start = join_of(dir, na).len() - na.len();
        assert(join_of(dir, na).skip(start) =~= na);
        assert(join_of(dir, nb).skip(start) =~= nb);
        assert(da.len() == db.len());
        assert(na.subrange(k as int, (k + da.len()) as int) =~= da);
        assert(nb.subrange(k as int, (k + da.len()) as int) =~= db);
        encode_utf8_decode_utf8(decimal_digits(a as nat));
        encode_utf8_decode_utf8(decimal_digits(b as nat));
        lemma_digits_injective(a as nat, b as nat);
    }
}

/// A path whose file name is text has as many variants as are tried.
pub proof fn law_variants_exist(path: Seq<u8>, taken: u64)
    requires
        file_name_of(path) matches Some(name) && valid_utf8(name),
        taken < VARIANT_LIMIT,
    ensures
        unique_path_of(path, taken) is Ok,
{
    let name = file_name_of(path)->Some_0;
    law_file_name_is_plain(path);
    law_join_file_name(Seq::empty(), name);
    assert(join_of(Seq::empty(), name) =~= name);
    law_file_name_stays_text(name);
}

/// A ciphertext, a temporary file or a directory with a random name lies in the
/// directory that the other path lies in.
pub proof fn law_random_names_stay(path: Seq<u8>, name: Seq<char>)
    requires
        is_random_name(name),
    ensures
        parent_of(ciphertext_path_of(parent_or_dot(path), name)) == Some(parent_or_dot(path)),
        parent_of(temporary_path_of(parent_or_dot(path), name)) == Some(parent_or_dot(path)),
        parent_of(join_of(parent_or_dot(path), encode_utf8(name))) == Some(parent_or_dot(path)),
{
    let bytes = encode_utf8(name);
    is_ascii_chars_encode_utf8(name);
    lemma_name_pieces();
    assert forall|i: int| 0 <= i < bytes.len() implies bytes[i] != SLASH && bytes[i] != DOT by {
        assert(ascii_alphanumeric(name[i]));
        assert(name[i] as u8 == bytes[i]);
    }
    let enc = bytes + encode_utf8(".enc"@);
    let tmp = encode_utf8("."@) + bytes + encode_utf8(".tmp"@);
    assert(enc.len() == 20 && tmp.len() == 21);
    assert(!enc.contains(SLASH));
    assert(!tmp.contains(SLASH));
    assert(bytes.len() == 16 && !bytes.contains(SLASH));
    law_join_parent(path, bytes);
    law_join_parent(path, enc);
    law_join_parent(path, tmp);
}

/// The path of the ciphertext `name` in `dir`.
pub fn ciphertext_path(dir: &[u8], name: &str) -> (path: Vec<u8>)
    ensures
        path@ == ciphertext_path_of(dir@, name@),
{
    let mut file: Vec<u8> = copied(name.as_bytes());
    append(&mut file, ".enc".as_bytes());
    join(dir, file.as_slice())
}

/// The path of the temporary file `name` in `dir`.
pub fn temporary_path(dir: &[u8], name: &str) -> (path: Vec<u8>)
    ensures
        path@ == temporary_path_of(dir@, name@),
{
    let mut file: Vec<u8> = copied(".".as_bytes());
    append(&mut file, name.as_bytes());
    append(&mut file, ".tmp".as_bytes());
    join(dir, file.as_slice())
}

/// The path to try for a ciphertext in `dir` when `tried` random names were
/// found to be taken and `name` was drawn next.
pub open spec fn reserved_path_of(dir: Seq<u8>, tried: usize, name: Seq<char>) -> Result<
    Seq<u8>,
    FileErrorView,
> {
    if tried < MAX_NAME_ATTEMPTS {
        Ok(ciphertext_path_of(dir, name))
    } else {
        Err(FsError::NoCiphertextName)
    }
}

/// The path to try for a ciphertext in `dir` when `tried` random names were
/// found to be taken and `name` was drawn next.
pub fn reserve_ciphertext_path(dir: &[u8], tried: usize, name: &str) -> (r: Result<
    Vec<u8>,
    FileError,
>)
    ensures
        match r {
            Ok(path) => reserved_path_of(dir@, tried, name@) == Ok::<Seq<u8>, FileErrorView>(path@),
            Err(e) => reserved_path_of(dir@, tried, name@) == Err::<Seq<u8>, FileErrorView>(e@),
        },
{
    if tried >= MAX_NAME_ATTEMPTS {
        return Err(FsError::NoCiphertextName);
    }
    Ok(ciphertext_path(dir, name))
}

/// A random name for a new file.
pub(crate) fn new_name() -> (name: String)
    ensures
        is_random_name(name@),
{
    random_name(RANDOM_NAME_LEN)
}

/// The variant of `path` to try when `taken` variants, `path` itself the first
/// of them, were found to be taken.
pub fn get_unique_path(path: &[u8], taken: u64) -> (r: Result<Vec<u8>, FileError>)
    ensures
        match r {
            Ok(variant) => unique_path_of(path@, taken) == Ok::<Seq<u8>, FileErrorView>(variant@),
            Err(e) => unique_path_of(path@, taken) == Err::<Seq<u8>, FileErrorView>(e@),
        },
{
    if taken == 0 {
        return Ok(copied(path));
    }
    let dir = match parent(path) {
        Some(dir) => dir,
        None => return Err(FsError::InvalidPath),
    };
    let stem = match file_stem(path) {
        Some(stem) => stem,
        None => return Err(FsError::InvalidName),
    };
    if str_from_utf8(stem).is_err() {
        return Err(FsError::InvalidName);
    }
    if taken >= VARIANT_LIMIT {
        return Err(FsError::TooManyDuplicates);
    }
    let mut name: Vec<u8> = copied(stem);
    append(&mut name, "_".as_bytes());
    append(&mut name, decimal(taken).as_str().as_bytes());
    if let Some(ext) = extension(path) {
        if str_from_utf8(ext).is_ok() {
            append(&mut name, ".".as_bytes());
            append(&mut name, ext);
        }
    }
    Ok(join(dir, name.as_slice()))
}

/// A ciphertext is named by its random name and `.enc`, in the directory that it is
/// for, and a temporary file by a dot, its random name and `.tmp`.
pub proof fn law_random_names_are_spelled(dir: Seq<u8>, name: Seq<char>)
    requires
        is_random_name(name),
        dir.len() > 0,
        dir.last() != 47u8,
    ensures
        ciphertext_path_of(dir, name) == dir + seq![47u8] + encode_utf8(name) + seq![
            46u8,
            101u8,
            110u8,
            99u8,
        ],
        temporary_path_of(dir, name) == dir + seq![47u8, 46u8] + encode_utf8(name) + seq![
            46u8,
            116u8,
            109u8,
            112u8,
        ],
        encode_utf8(name).len() == 16,
{
    lemma_name_pieces();
    let bytes = encode_utf8(name);
    is_ascii_chars_encode_utf8(name);
    assert(ascii_alphanumeric(name[0]));
    assert(name[0] as u8 == bytes[0]);
    assert(ciphertext_path_of(dir, name) =~= dir + seq![47u8] + bytes + seq![
        46u8,
        101u8,
        110u8,
        99u8,
    ]);
    assert(temporary_path_of(dir, name) =~= dir + seq![47u8, 46u8] + bytes + seq![
        46u8,
        116u8,
        109u8,
        112u8,
    ]);
}

/// The first variant of a path is the path itself. The others have a number between
/// the stem of the name and its extension, behind an underscore, and there are no
/// more than 9999 of them.
pub proof fn law_variants_are_numbered(
    dir: Seq<u8>,
    stem: Seq<u8>,
    extension: Seq<u8>,
    taken: u64,
)
    requires
        dir.len() > 0,
        trimmed(dir) == dir,
        stem.len() > 0,
        !stem.contains(47u8),
        !extension.contains(47u8),
        !extension.contains(46u8),
        is_plain_name(stem + seq![46u8] + extension),
        valid_utf8(stem),
        valid_utf8(extension),
    ensures
        ({
            let path = dir + seq![47u8] + stem + seq![46u8] + extension;
            let number = encode_utf8(decimal_digits(taken as nat));
            unique_path_of(path, taken) == if taken == 0 {
                Ok::<Seq<u8>, FileErrorView>(path)
            } else if taken <= 9999 {
                Ok(
                    dir + seq![47u8] + stem + seq![95u8] + number + seq![46u8] + extension,
                )
            } else {
                Err(FsError::TooManyDuplicates)
            }
        }),
{
    let name = stem + seq![46u8] + extension;
    let path = dir + seq![47u8] + stem + seq![46u8] + extension;
    let number = encode_utf8(decimal_digits(taken as nat));
    lemma_name_pieces();
    assert(path =~= dir + seq![47u8] + name);
    law_parent_before_the_last_slash(dir, name);
    law_last_dot_parts_the_name(dir, stem, extension);
    let numbered = numbered_name(stem, taken as nat, Some(extension));
    assert(stem.contains(stem[0]));
    lemma_trimmed_end(dir);
    assert(join_of(dir, numbered) =~= dir + seq![47u8] + numbered);
    assert(dir + seq![47u8] + numbered =~= dir + seq![47u8] + stem + seq![95u8] + number + seq![
        46u8,
    ] + extension);
}

proof fn lemma_trimmed_end(dir: Seq<u8>)
    requires
        dir.len() > 0,
        trimmed(dir) == dir,
    ensures
        dir.last() != SLASH,
{
    if dir.last() == SLASH {
        law_trimmed_is_no_longer(dir.drop_last());
    }
}

/// A name without an extension gets its number at its end.
pub proof fn law_bare_variants_are_numbered(dir: Seq<u8>, name: Seq<u8>, taken: u64)
    requires
        dir.len() > 0,
        trimmed(dir) == dir,
        is_plain_name(name),
        forall|i: int| 0 < i < name.len() ==> name[i] != 46u8,
        valid_utf8(name),
        0 < taken <= 9999,
    ensures
        unique_path_of(dir + seq![47u8] + name, taken) == Ok::<Seq<u8>, FileErrorView>(
            dir + seq![47u8] + name + seq![95u8] + encode_utf8(decimal_digits(taken as nat)),
        ),
{
    let path = dir + seq![47u8] + name;
    let number = encode_utf8(decimal_digits(taken as nat));
    lemma_name_pieces();
    law_parent_before_the_last_slash(dir, name);
    law_name_without_extension(dir, name);
    let numbered = numbered_name(name, taken as nat, None);
    assert(name.contains(name[0]));
    lemma_trimmed_end(dir);
    assert(join_of(dir, numbered) =~= dir + seq![47u8] + name + seq![95u8] + number);
}

/// A name that stands alone is numbered in the same way.
pub proof fn law_relative_variants_are_numbered(stem: Seq<u8>, extension: Seq<u8>, taken: u64)
    requires
        stem.len() > 0,
        !stem.contains(47u8),
        !extension.contains(47u8),
        !extension.contains(46u8),
        is_plain_name(stem + seq![46u8] + extension),
        valid_utf8(stem),
        valid_utf8(extension),
        0 < taken <= 9999,
    ensures
        unique_path_of(stem + seq![46u8] + extension, taken) == Ok::<Seq<u8>, FileErrorView>(
            stem + seq![95u8] + encode_utf8(decimal_digits(taken as nat)) + seq![46u8] + extension,
        ),
        unique_path_of(seq![47u8] + stem + seq![46u8] + extension, taken) == Ok::<
            Seq<u8>,
            FileErrorView,
        >(
            seq![47u8] + stem + seq![95u8] + encode_utf8(decimal_digits(taken as nat)) + seq![46u8]
                + extension,
        ),
{
    let name = stem + seq![46u8] + extension;
    let number = encode_utf8(decimal_digits(taken as nat));
    let none = Seq::<u8>::empty();
    let rooted = seq![47u8] + stem + seq![46u8] + extension;
    lemma_name_pieces();
    law_parent_before_the_last_slash(none, name);
    law_name_behind_the_last_slash(none, name);
    law_last_dot_parts_the_name(none, stem, extension);
    assert(none + seq![47u8] + name =~= rooted);
    assert(none + seq![47u8] + stem + seq![46u8] + extension =~= rooted);
    assert(seq![47u8] + name =~= rooted);
    let numbered = numbered_name(stem, taken as nat, Some(extension));
    assert(stem.contains(stem[0]));
    assert(numbered =~= stem + seq![95u8] + number + seq![46u8] + extension);
    assert(join_of(none, numbered) =~= numbered);
    assert(join_of(seq![47u8], numbered) =~= seq![47u8] + stem + seq![95u8] + number + seq![46u8]
        + extension);
}

/// What names nothing has no variants, and neither has what is not named in text.
pub proof fn law_paths_without_variants(path: Seq<u8>, taken: u64)
    requires
        taken > 0,
    ensures
        parent_of(path) is None ==> unique_path_of(path, taken) == Err::<Seq<u8>, FileErrorView>(
            FsError::InvalidPath,
        ),
        parent_of(path) is Some && !(stem_of(path) matches Some(stem) && valid_utf8(stem))
            ==> unique_path_of(path, taken) == Err::<Seq<u8>, FileErrorView>(FsError::InvalidName),
{
}

/// 64 random names are tried for a ciphertext, and no more.
pub proof fn law_so_many_names_are_tried(dir: Seq<u8>, tried: usize, name: Seq<char>)
    ensures
        tried < 64 ==> reserved_path_of(dir, tried, name) == Ok::<Seq<u8>, FileErrorView>(
            ciphertext_path_of(dir, name),
        ),
        tried >= 64 ==> reserved_path_of(dir, tried, name) == Err::<Seq<u8>, FileErrorView>(
            FsError::NoCiphertextName,
        ),
{
}

} // verus!

//! How notices are shown.

use vstd::prelude::*;
use crate::fsops::action::{Notice, NoticeView};
use crate::fsops::decrypt::or_empty;
use crate::fsops::error::{ends_in, lemma_ends_in};
use crate::paths::{file_name, file_name_of};
use crate::text::{joined, lossy_of, lossy_text};

verus! {

/// The lines of a notice.
#[derive(Debug)]
pub struct Shown {
    /// What goes to the standard error stream, first.
    pub err: Option<String>,
    /// What goes to the standard output stream.
    pub out: Option<String>,
}

/// The list of what went wrong, each on a line of its own.
pub open spec fn error_lines(errors: Seq<String>) -> Seq<char>
    decreases errors.len(),
{
    if errors.len() == 0 {
        Seq::empty()
    } else {
        error_lines(errors.drop_last()) + "\n - "@ + errors.last()@
    }
}

/// What a notice shows on the standard output stream, when `errors` went wrong.
pub open spec fn notice_out(notice: NoticeView, errors: Seq<String>) -> Option<Seq<char>> {
    match notice {
        Notice::SkippingSymlink(path) => Some("Skipping symlink: "@ + lossy_of(path)),
        Notice::Encrypting(path) => Some("Encrypting: "@ + lossy_of(path)),
        Notice::FileEncrypted => Some("Done: File encrypted and integrity secured."@),
        Notice::Processing(path) => Some("Processing: "@ + lossy_of(path)),
        Notice::Restored(name) => Some("Restored and Verified: "@ + lossy_of(name)),
        Notice::DirectoryEncrypted(name, path) => Some(
            "Encrypted Dir: "@ + name + " -> "@ + lossy_of(or_empty(file_name_of(path))),
        ),
        Notice::DirectoryRestored(path, _) => Some("Restored Dir: "@ + lossy_of(path)),
        Notice::KeySaved(path) => Some(
            "Master Key saved to: "@ + lossy_of(path)
                + "\nIMPORTANT: Keep this key safe. You cannot recover data without it."@,
        ),
        Notice::EncryptionFailed(_) => None,
        Notice::DirectoryEncryptionFailed(_) => None,
        Notice::NeitherFileNorDirectory => None,
        Notice::PasswordCorrect => Some("Password correct. Starting decryption..."@),
        Notice::KeyKept => Some(
            "\nERRORS encountered:"@ + error_lines(errors)
                + "\n\nWARNING: Key file was NOT deleted because errors occurred."@,
        ),
        Notice::AllSuccessful => Some("\nVerification: All operations successful."@),
        Notice::KeyDeleted => Some("SUCCESS: Key file deleted securely."@),
    }
}

/// Whether a notice shows `err` on the standard error stream, when `errors` went
/// wrong.
pub open spec fn notice_err(
    notice: NoticeView,
    errors: Seq<String>,
    err: Option<Seq<char>>,
) -> bool {
    match notice {
        Notice::DirectoryRestored(_, true) => err == if errors.len() > 0 {
            Some("Warning: "@ + errors.last()@)
        } else {
            None
        },
        Notice::EncryptionFailed(e) => err matches Some(text) && exists|m: Seq<char>| #[trigger]
            e.has_message(m) && text == "Encryption failed: "@ + m,
        Notice::DirectoryEncryptionFailed(e) => err matches Some(text) && exists|m: Seq<char>|
         #[trigger]
            e.has_message(m) && text == "Encryption process encountered errors: "@ + m,
        Notice::NeitherFileNorDirectory => err == Some(
            "Target is neither a regular file nor a directory."@,
        ),
        _ => err is None,
    }
}

/// The text behind an `Option`.
pub open spec fn text_view(text: Option<String>) -> Option<Seq<char>> {
    match text {
        Some(t) => Some(t@),
        None => None,
    }
}

/// The list of what went wrong, each on a line of its own.
fn list_errors(errors: &Vec<String>) -> (text: String)
    ensures
        text@ == error_lines(errors@),
{
    let mut text = String::new();
    let mut i: usize = 0;
    assert(errors@.subrange(0, 0) =~= Seq::<String>::empty());
    while i < errors.len()
        invariant
            i <= errors@.len(),
            text@ == error_lines(errors@.subrange(0, i as int)),
        decreases errors@.len() - i,
    {
        proof {
            let with = errors@.subrange(0, i + 1);
            assert(with.drop_last() =~= errors@.subrange(0, i as int));
            assert(with.last() == errors@[i as int]);
        }
        text.append("\n - ");
        text.append(errors[i].as_str());
        i = i + 1;
    }
    assert(errors@.subrange(0, i as int) =~= errors@);
    text
}

/// How a notice is shown, when `errors` went wrong.
pub fn show(notice: &Notice<Vec<u8>, String>, errors: &Vec<String>) -> (shown: Shown)
    ensures
        text_view(shown.out) == notice_out(notice@, errors@),
        notice_err(notice@, errors@, text_view(shown.err)),
{
    match notice {
        Notice::SkippingSymlink(path) => Shown {
            err: None,
            out: Some(joined("Skipping symlink: ", lossy_text(path.as_slice()).as_str())),
        },
        Notice::Encrypting(path) => Shown {
            err: None,
            out: Some(joined("Encrypting: ", lossy_text(path.as_slice()).as_str())),
        },
        Notice::FileEncrypted => Shown {
            err: None,
            out: Some("Done: File encrypted and integrity secured.".to_owned()),
        },
        Notice::Processing(path) => Shown {
            err: None,
            out: Some(joined("Processing: ", lossy_text(path.as_slice()).as_str())),
        },
        Notice::Restored(name) => Shown {
            err: None,
            out: Some(joined("Restored and Verified: ", lossy_text(name.as_slice()).as_str())),
        },
        Notice::DirectoryEncrypted(name, path) => {
            let mut text = joined("Encrypted Dir: ", name.as_str());
            let new_name = match file_name(path.as_slice()) {
                Some(new_name) => lossy_text(new_name),
                None => {
                    let none: Vec<u8> = Vec::new();
                    lossy_text(none.as_slice())
                },
            };
            text.append(" -> ");
            text.append(new_name.as_str());
            Shown { err: None, out: Some(text) }
        },
        Notice::DirectoryRestored(path, kept) => {
            let out = joined("Restored Dir: ", lossy_text(path.as_slice()).as_str());
            let err = if *kept && errors.len() > 0 {
                Some(joined("Warning: ", errors[errors.len() - 1].as_str()))
            } else {
                None
            };
            Shown { err, out: Some(out) }
        },
        Notice::KeySaved(path) => {
            let mut text = joined("Master Key saved to: ", lossy_text(path.as_slice()).as_str());
            text.append("\nIMPORTANT: Keep this key safe. You cannot recover data without it.");
            Shown { err: None, out: Some(text) }
        },
        Notice::EncryptionFailed(e) => {
            let message = e.message();
            assert(e@.has_message(message@));
            Shown { err: Some(joined("Encryption failed: ", message.as_str())), out: None }
        },
        Notice::DirectoryEncryptionFailed(e) => {
            let message = e.message();
            assert(e@.has_message(message@));
            let text = joined("Encryption process encountered errors: ", message.as_str());
            Shown { err: Some(text), out: None }
        },
        Notice::NeitherFileNorDirectory => Shown {
            err: Some("Target is neither a regular file nor a directory.".to_owned()),
            out: None,
        },
        Notice::PasswordCorrect => Shown {
            err: None,
            out: Some("Password correct. Starting decryption...".to_owned()),
        },
        Notice::KeyKept => {
            let mut text = joined("\nERRORS encountered:", list_errors(errors).as_str());
            text.append("\n\nWARNING: Key file was NOT deleted because errors occurred.");
            Shown { err: None, out: Some(text) }
        },
        Notice::AllSuccessful => Shown {
            err: None,
            out: Some("\nVerification: All operations successful.".to_owned()),
        },
        Notice::KeyDeleted => Shown {
            err: None,
            out: Some("SUCCESS: Key file deleted securely.".to_owned()),
        },
    }
}

/// The list of what went wrong has every error in it, whole and in its place: a list
/// is the lists of its parts, one behind the other.
pub proof fn law_every_error_is_listed(front: Seq<String>, error: String, rest: Seq<String>)
    ensures
        error_lines(front + seq![error] + rest) == error_lines(front) + seq!['\n', ' ', '-', ' ']
            + error@ + error_lines(rest),
        error_lines(Seq::<String>::empty()) == Seq::<char>::empty(),
    decreases rest.len(),
{
    reveal_strlit("\n - ");
    assert("\n - "@ =~= seq!['\n', ' ', '-', ' ']);
    let all = front + seq![error] + rest;
    if rest.len() == 0 {
        assert(all.drop_last() =~= front);
        assert(all.last() == error);
        assert(error_lines(all) =~= error_lines(front) + seq!['\n', ' ', '-', ' '] + error@
            + error_lines(rest));
    } else {
        assert(all.drop_last() =~= front + seq![error] + rest.drop_last());
        assert(all.last() == rest.last());
        law_every_error_is_listed(front, error, rest.drop_last());
        assert(error_lines(all) =~= error_lines(front) + seq!['\n', ' ', '-', ' '] + error@
            + error_lines(rest));
    }
}

/// A notice about a file or a directory names it in full at its end. One that the
/// key was kept has the list of all errors in it.
pub proof fn law_notices_name_their_path(path: Seq<u8>, name: Seq<char>, errors: Seq<String>)
    ensures
        forall|notice: NoticeView|
            notice == NoticeView::SkippingSymlink(path) || notice == NoticeView::Encrypting(path)
                || notice == NoticeView::Processing(path) || notice == NoticeView::Restored(path)
                || notice == NoticeView::DirectoryRestored(path, false) || notice
                == NoticeView::DirectoryRestored(path, true) ==> (#[trigger] notice_out(
                notice,
                errors,
            ) matches Some(out) && ends_in(out, lossy_of(path))),
        file_name_of(path) is Some ==> ends_in(
            notice_out(NoticeView::DirectoryEncrypted(name, path), errors)->Some_0,
            name + seq![' ', '-', '>', ' '] + lossy_of(file_name_of(path)->Some_0),
        ),
        notice_out(NoticeView::KeyKept, errors) matches Some(out) && exists|
            before: Seq<char>,
            after: Seq<char>,
        |
            out == #[trigger] (before + error_lines(errors) + after),
        notice_out(NoticeView::KeySaved(path), errors) matches Some(out) && exists|
            before: Seq<char>,
            after: Seq<char>,
        |
            out == #[trigger] (before + lossy_of(path) + after),
{
    lemma_ends_in("Skipping symlink: "@, lossy_of(path));
    lemma_ends_in("Encrypting: "@, lossy_of(path));
    lemma_ends_in("Processing: "@, lossy_of(path));
    lemma_ends_in("Restored and Verified: "@, lossy_of(path));
    lemma_ends_in("Restored Dir: "@, lossy_of(path));
    reveal_strlit(" -> ");
    assert(" -> "@ =~= seq![' ', '-', '>', ' ']);
    if let Some(new) = file_name_of(path) {
        let end = name + seq![' ', '-', '>', ' '] + lossy_of(new);
        assert("Encrypted Dir: "@ + name + " -> "@ + lossy_of(new) =~= "Encrypted Dir: "@ + end);
        lemma_ends_in("Encrypted Dir: "@, end);
    }
}

/// What failed is told on the standard error stream, with the message of the error
/// in full, and so is the last error where the name of a directory was restored and
/// its marker stayed. Everything else leaves that stream alone.
pub proof fn law_failures_go_to_the_error_stream(
    notice: NoticeView,
    errors: Seq<String>,
    err: Option<Seq<char>>,
)
    requires
        notice_err(notice, errors, err),
    ensures
        match notice {
            Notice::EncryptionFailed(e) => {
                &&& notice_out(notice, errors) is None
                &&& err is Some
                &&& exists|m: Seq<char>| #[trigger] e.has_message(m) && ends_in(err->Some_0, m)
            },
            Notice::DirectoryEncryptionFailed(e) => {
                &&& notice_out(notice, errors) is None
                &&& err is Some
                &&& exists|m: Seq<char>| #[trigger] e.has_message(m) && ends_in(err->Some_0, m)
            },
            Notice::NeitherFileNorDirectory => notice_out(notice, errors) is None && err is Some,
            Notice::DirectoryRestored(_, true) => errors.len() > 0 ==> err is Some && ends_in(
                err->Some_0,
                errors.last()@,
            ),
            _ => err is None && notice_out(notice, errors) is Some,
        },
{
    match notice {
        Notice::EncryptionFailed(e) => {
            let m = choose|m: Seq<char>| #[trigger]
                e.has_message(m) && err->Some_0 == "Encryption failed: "@ + m;
            lemma_ends_in("Encryption failed: "@, m);
        },
        Notice::DirectoryEncryptionFailed(e) => {
            let m = choose|m: Seq<char>| #[trigger]
                e.has_message(m) && err->Some_0 == "Encryption process encountered errors: "@ + m;
            lemma_ends_in("Encryption process encountered errors: "@, m);
        },
        Notice::DirectoryRestored(_, true) => {
            lemma_ends_in("Warning: "@, errors.last()@);
        },
        _ => {},
    }
}

} // verus!

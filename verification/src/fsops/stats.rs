//! What a run has achieved, and the payloads that it has before it.

use vstd::prelude::*;
use vstd::utf8::encode_utf8;
use crate::bytes::same_bytes;
use crate::fsops::action::{Trouble, TroubleView};
use crate::fsops::error::{ends_in, lemma_ends_in, FileErrorView};
use crate::paths::{extension, extension_of, file_name, file_name_of};
use crate::text::{joined, lossy_of, lossy_text};

verus! {

/// The file that holds the name of an encrypted directory.
pub const DIR_MARKER: &'static str = ".dirname.enc";

/// What a run has achieved.
#[derive(Debug)]
pub struct EncryptionStats {
    /// The number of payloads at the beginning.
    pub total: usize,
    /// The number of payloads that were restored.
    pub success: usize,
    /// What went wrong.
    pub errors: Vec<String>,
}

impl EncryptionStats {
    /// Nothing achieved yet.
    pub fn new() -> (stats: Self)
        ensures
            stats.total == 0,
            stats.success == 0,
            stats.errors@.len() == 0,
    {
        EncryptionStats { total: 0, success: 0, errors: Vec::new() }
    }
}

impl Default for EncryptionStats {
    fn default() -> (stats: Self)
        ensures
            stats.total == 0,
            stats.success == 0,
            stats.errors@.len() == 0,
    {
        EncryptionStats::new()
    }
}

/// Whether `text` is how `trouble` is reported.
pub open spec fn trouble_says(trouble: TroubleView, text: Seq<char>) -> bool {
    match trouble {
        Trouble::TooDeep(path) => text == "Recursion limit reached at "@ + lossy_of(path),
        Trouble::DirectoryName(path, e) => exists|m: Seq<char>| #[trigger]
            e.has_message(m) && text == "Failed to decrypt directory "@ + lossy_of(path) + ": "@
                + m,
        Trouble::Listing(path, shown) => text == "Cannot read dir "@ + lossy_of(path) + ": "@
            + shown,
        Trouble::Metadata(path, shown) => text == "Cannot read metadata "@ + lossy_of(path)
            + ": "@ + shown,
        Trouble::Entry(path, shown) => text == "Cannot read entry of dir "@ + lossy_of(path)
            + ": "@ + shown,
        Trouble::File(path, e) => exists|m: Seq<char>| #[trigger]
            e.has_message(m) && text == "File "@ + lossy_of(path) + ": "@ + m,
        Trouble::Marker(path, e) => exists|m: Seq<char>| #[trigger]
            e.has_message(m) && text == "Failed to securely delete marker "@ + lossy_of(path)
                + ": "@ + m,
    }
}

/// `front`, the path, and `end` behind a colon.
fn report(front: &str, path: &[u8], end: &str) -> (text: String)
    ensures
        text@ == front@ + lossy_of(path@) + ": "@ + end@,
{
    let mut text = joined(front, lossy_text(path).as_str());
    text.append(": ");
    text.append(end);
    text
}

/// How `trouble` is reported.
pub fn trouble_text(trouble: &Trouble<Vec<u8>, String>) -> (text: String)
    ensures
        trouble_says(trouble@, text@),
{
    match trouble {
        Trouble::TooDeep(path) => joined(
            "Recursion limit reached at ",
            lossy_text(path.as_slice()).as_str(),
        ),
        Trouble::DirectoryName(path, e) => {
            let message = e.message();
            assert(e@.has_message(message@));
            report("Failed to decrypt directory ", path.as_slice(), message.as_str())
        },
        Trouble::Listing(path, shown) => report(
            "Cannot read dir ",
            path.as_slice(),
            shown.as_str(),
        ),
        Trouble::Metadata(path, shown) => report(
            "Cannot read metadata ",
            path.as_slice(),
            shown.as_str(),
        ),
        Trouble::Entry(path, shown) => report(
            "Cannot read entry of dir ",
            path.as_slice(),
            shown.as_str(),
        ),
        Trouble::Marker(path, e) => {
            let message = e.message();
            assert(e@.has_message(message@));
            report("Failed to securely delete marker ", path.as_slice(), message.as_str())
        },
        Trouble::File(path, e) => {
            let message = e.message();
            assert(e@.has_message(message@));
            report("File ", path.as_slice(), message.as_str())
        },
    }
}

/// Something found in a directory tree.
#[derive(Debug)]
pub struct TreeEntry {
    /// Where it stands.
    pub path: Vec<u8>,
    /// Whether it is a regular file.
    pub is_file: bool,
}

/// The name of something found in a directory tree.
pub open spec fn entry_name(path: Seq<u8>) -> Seq<u8> {
    match file_name_of(path) {
        Some(name) => name,
        None => path,
    }
}

/// Whether the file at `path` is named like a ciphertext.
pub open spec fn is_ciphertext_name(path: Seq<u8>) -> bool {
    extension_of(path) == Some(encode_utf8("enc"@))
}

/// Whether the entry is a ciphertext, and not the name of a directory.
pub open spec fn is_payload(entry: TreeEntry) -> bool {
    &&& entry.is_file
    &&& is_ciphertext_name(entry.path@)
    &&& entry_name(entry.path@) != encode_utf8(DIR_MARKER@)
}

/// Whether the file at `path` is named like a ciphertext.
pub fn has_ciphertext_name(path: &[u8]) -> (b: bool)
    ensures
        b == is_ciphertext_name(path@),
{
    match extension(path) {
        Some(ext) => same_bytes(ext, "enc".as_bytes()),
        None => false,
    }
}

/// Counts the ciphertexts among the entries of a directory tree, leaving out
/// the names of directories.
pub fn count_encrypted_payloads(entries: &Vec<TreeEntry>) -> (n: usize)
    ensures
        n == entries@.filter(|entry: TreeEntry| is_payload(entry)).len(),
{
    let ghost payload = |entry: TreeEntry| is_payload(entry);
    let mut n: usize = 0;
    let mut i: usize = 0;
    assert(entries@.subrange(0, 0).filter(payload).len() == 0) by {
        reveal(Seq::filter);
    }
    while i < entries.len()
        invariant
            i <= entries@.len(),
            n <= i,
            payload == (|entry: TreeEntry| is_payload(entry)),
            n == entries@.subrange(0, i as int).filter(payload).len(),
        decreases entries@.len() - i,
    {
        let entry = &entries[i];
        let marker = match file_name(entry.path.as_slice()) {
            Some(name) => same_bytes(name, DIR_MARKER.as_bytes()),
            None => same_bytes(entry.path.as_slice(), DIR_MARKER.as_bytes()),
        };
        proof {
            let before = entries@.subrange(0, i as int);
            let with = entries@.subrange(0, i + 1);
            assert(with.drop_last() =~= before);
            assert(with.last() == entries@[i as int]);
            reveal(Seq::filter);
        }
        if entry.is_file && has_ciphertext_name(entry.path.as_slice()) && !marker {
            n = n + 1;
        }
        i = i + 1;
    }
    assert(entries@.subrange(0, i as int) =~= entries@);
    n
}

/// Every report names the path that it is about in full, and ends with what went
/// wrong.
pub proof fn law_reports_name_path_and_reason(
    path: Seq<u8>,
    shown: Seq<char>,
    e: FileErrorView,
    text: Seq<char>,
)
    ensures
        trouble_says(TroubleView::TooDeep(path), text) ==> ends_in(text, lossy_of(path)),
        trouble_says(TroubleView::Listing(path, shown), text) || trouble_says(
            TroubleView::Metadata(path, shown),
            text,
        ) || trouble_says(TroubleView::Entry(path, shown), text) ==> ends_in(
            text,
            lossy_of(path) + seq![':', ' '] + shown,
        ),
        trouble_says(TroubleView::DirectoryName(path, e), text) || trouble_says(
            TroubleView::File(path, e),
            text,
        ) || trouble_says(TroubleView::Marker(path, e), text) ==> exists|m: Seq<char>| #[trigger]
            e.has_message(m) && ends_in(text, lossy_of(path) + seq![':', ' '] + m),
{
    reveal_strlit(": ");
    assert(": "@ =~= seq![':', ' ']);
    lemma_ends_in("Recursion limit reached at "@, lossy_of(path));
    lemma_reason_behind("Cannot read dir "@, lossy_of(path), shown);
    lemma_reason_behind("Cannot read metadata "@, lossy_of(path), shown);
    lemma_reason_behind("Cannot read entry of dir "@, lossy_of(path), shown);
    if trouble_says(TroubleView::DirectoryName(path, e), text) {
        let m = choose|m: Seq<char>| #[trigger]
            e.has_message(m) && text == "Failed to decrypt directory "@ + lossy_of(path) + ": "@
                + m;
        lemma_reason_behind("Failed to decrypt directory "@, lossy_of(path), m);
    }
    if trouble_says(TroubleView::File(path, e), text) {
        let m = choose|m: Seq<char>| #[trigger]
            e.has_message(m) && text == "File "@ + lossy_of(path) + ": "@ + m;
        lemma_reason_behind("File "@, lossy_of(path), m);
    }
    if trouble_says(TroubleView::Marker(path, e), text) {
        let m = choose|m: Seq<char>| #[trigger]
            e.has_message(m) && text == "Failed to securely delete marker "@ + lossy_of(path)
                + ": "@ + m;
        lemma_reason_behind("Failed to securely delete marker "@, lossy_of(path), m);
    }
}

proof fn lemma_reason_behind(front: Seq<char>, path: Seq<char>, reason: Seq<char>)
    ensures
        ends_in(front + path + seq![':', ' '] + reason, path + seq![':', ' '] + reason),
{
    let end = path + seq![':', ' '] + reason;
    assert(front + path + seq![':', ' '] + reason =~= front + end);
    lemma_ends_in(front, end);
}

} // verus!

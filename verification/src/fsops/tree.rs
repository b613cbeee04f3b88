//! Decryption of a whole directory tree: the run of a directory, with the runs of
//! the directories in it.

use vstd::prelude::*;
use vstd::utf8::{encode_utf8, is_ascii_chars_encode_utf8, valid_utf8};
use crate::crypto::key::simple_opened;
use crate::fsops::action::{
    answers, failed, succeeded, Action, ActionView, Exchange, FileKind, Progress, Reply, ReplyView,
    TroubleView,
};
use crate::fsops::decrypt::{
    self, all_variants_taken, decryption_at, is_decryption, law_faithful_decryption_succeeds,
    law_success_had_no_failure,
};
use crate::fsops::decrypt_dir::{
    directory_decryption, directory_decryption_at, is_directory_decryption, marker_of, records,
    reports, DecryptDirectory, DecryptDirectoryView, DirectoryTurnView,
};
use crate::fsops::encrypt_dir::MAX_DEPTH;
use crate::fsops::error::FileErrorView;
use crate::fsops::naming::{law_variants_exist, VARIANT_LIMIT};
use crate::fsops::stats::{
    is_ciphertext_name, is_payload, trouble_says, EncryptionStats, TreeEntry, DIR_MARKER,
};
use crate::paths::{
    file_name_of, is_plain_name, join_of, last_dot, law_file_name_is_plain,
    law_file_name_stays_text, law_join_file_name, lemma_dot_at_last_dot, lemma_last_dot,
    parent_or_dot,
};

verus! {

/// The run of the decryption of a directory. Where the exchange with index `i`
/// decrypts a directory in it, `below[i]` is the run of that, and where it
/// decrypts a file, `files[i]` are the exchanges of that.
pub ghost struct DirectoryRun {
    /// Where the directory lies.
    pub path: Seq<u8>,
    /// How deep it lies.
    pub depth: usize,
    /// The exchanges of the run.
    pub done: Seq<Exchange<()>>,
    /// The runs of the directories in it.
    pub below: Seq<DirectoryRun>,
    /// The exchanges of the decryption of the files in it.
    pub files: Seq<Seq<Exchange<Seq<char>>>>,
}

impl DirectoryRun {
    /// Where the run stands after its first `n` exchanges.
    pub open spec fn at(self, n: int, key: Seq<u8>) -> Progress<
        DecryptDirectoryView,
        Seq<u8>,
        Seq<char>,
    > {
        directory_decryption_at(self.path, self.depth, key, self.done.subrange(0, n))
    }

    /// What follows the exchange with index `i`.
    pub open spec fn turn(self, i: int, key: Seq<u8>) -> DirectoryTurnView {
        self.at(i, key)->Running_0.after(self.done[i].reply, key)
    }

    /// What the run ends with.
    pub open spec fn outcome(self, key: Seq<u8>) -> Result<(), FileErrorView> {
        self.at(self.done.len() as int, key)->Finished_0
    }

    /// Whether the exchange with index `i` decrypts a directory.
    pub open spec fn descends(self, i: int) -> bool {
        self.done[i].asked is DecryptDirectory
    }

    /// Whether `files[i]` are the exchanges of the decryption of the file that the
    /// exchange with index `i` decrypts, whose outcome it was told.
    pub open spec fn runs_file(self, i: int) -> bool {
        self.done[i].asked matches Action::DecryptFile(entry) ==> {
            &&& is_decryption(entry, self.files[i])
            &&& decryption_at(entry, self.files[i]) matches Progress::Finished(r)
            &&& self.done[i].reply == ReplyView::Outcome(r)
        }
    }

    /// Whether this is a run under `key`, from its beginning to its end, and so
    /// is the decryption of the files and directories in it, whose outcomes it
    /// was told.
    pub open spec fn is_run(self, key: Seq<u8>) -> bool
        decreases self,
    {
        &&& is_directory_decryption(self.path, self.depth, key, self.done)
        &&& self.at(self.done.len() as int, key) is Finished
        &&& self.below.len() == self.done.len()
        &&& self.files.len() == self.done.len()
        &&& forall|i: int| 0 <= i < self.files.len() ==> #[trigger] self.runs_file(i)
        &&& forall|i: int|
            0 <= i < self.below.len() && self.descends(i) ==> {
                let run = #[trigger] self.below[i];
                &&& self.done[i].asked == ActionView::DecryptDirectory(run.path, run.depth)
                &&& self.done[i].reply == ReplyView::Outcome(run.outcome(key))
                &&& run.is_run(key)
            }
    }

    /// What is recorded as gone wrong up to the first `n` exchanges, in this
    /// directory and below it.
    pub open spec fn troubles_upto(self, n: int, key: Seq<u8>) -> Seq<TroubleView>
        decreases self, n,
    {
        if n <= 0 || n > self.below.len() {
            directory_decryption(self.path, self.depth).troubles
        } else {
            self.troubles_upto(n - 1, key) + (if self.descends(n - 1) {
                self.below[n - 1].troubles_upto(self.below[n - 1].done.len() as int, key)
            } else {
                Seq::empty()
            }) + self.turn(n - 1, key).troubles
        }
    }

    /// What is recorded as gone wrong, in this directory and below it.
    pub open spec fn troubles(self, key: Seq<u8>) -> Seq<TroubleView> {
        self.troubles_upto(self.done.len() as int, key)
    }

    /// The number of payloads that are restored up to the first `n` exchanges, in
    /// this directory and below it.
    pub open spec fn restored_upto(self, n: int, key: Seq<u8>) -> nat
        decreases self, n,
    {
        if n <= 0 || n > self.below.len() {
            0
        } else {
            self.restored_upto(n - 1, key) + (if self.descends(n - 1) {
                self.below[n - 1].restored_upto(self.below[n - 1].done.len() as int, key)
            } else {
                0
            }) + if self.turn(n - 1, key).restored {
                1nat
            } else {
                0
            }
        }
    }

    /// The number of payloads that are restored, in this directory and below it.
    pub open spec fn restored(self, key: Seq<u8>) -> nat {
        self.restored_upto(self.done.len() as int, key)
    }

    /// Whether the exchange with index `i` finds a payload.
    pub open spec fn finds_payload(self, i: int) -> bool {
        &&& self.done[i].asked matches Action::Stat(entry)
        &&& is_payload_name(entry)
        &&& self.done[i].reply matches Reply::Meta(Ok((kind, _)))
        &&& kind == FileKind::File
    }

    /// The number of payloads that are found up to the first `n` exchanges, in
    /// this directory and below it.
    pub open spec fn payloads_upto(self, n: int) -> nat
        decreases self, n,
    {
        if n <= 0 || n > self.below.len() {
            0
        } else {
            self.payloads_upto(n - 1) + (if self.descends(n - 1) {
                self.below[n - 1].payloads_upto(self.below[n - 1].done.len() as int)
            } else {
                0
            }) + if self.finds_payload(n - 1) {
                1nat
            } else {
                0
            }
        }
    }

    /// The number of payloads that are found, in this directory and below it.
    pub open spec fn payloads(self) -> nat {
        self.payloads_upto(self.done.len() as int)
    }

    /// Whether nothing that was asked for failed, in this directory and below it.
    pub open spec fn nothing_failed(self) -> bool
        decreases self,
    {
        &&& self.depth <= MAX_DEPTH
        &&& forall|i: int| 0 <= i < self.done.len() ==> !failed((#[trigger] self.done[i]).reply)
        &&& forall|i: int, j: int|
            0 <= i < self.files.len() && self.done[i].asked is DecryptFile && 0 <= j
                < self.files[i].len() ==> !failed((#[trigger] self.files[i][j]).reply)
        &&& forall|i: int|
            0 <= i < self.below.len() && self.descends(i) ==> (
            #[trigger] self.below[i]).nothing_failed()
    }

    /// Whether the directory does not lie too deep, nothing failed in it, its name
    /// can be read and not all variants of that are taken, and so it is with the
    /// files and directories in it.
    pub open spec fn goes_well(self, key: Seq<u8>) -> bool
        decreases self,
    {
        &&& self.depth <= MAX_DEPTH
        &&& name_can_be_read(self.done, key)
        &&& !all_variants_taken(self.done)
        &&& forall|i: int|
            0 <= i < self.below.len() ==> match (#[trigger] self.done[i]).asked {
                Action::DecryptFile(_) => decrypt::goes_well(self.files[i]),
                Action::DecryptDirectory(_, _) => self.below[i].goes_well(key),
                _ => !failed(self.done[i].reply),
            }
    }

    /// Whether `after` is `second` with everything recorded that follows the
    /// exchange with index `i`, where nothing was recorded between `first` and
    /// `second` unless the exchange decrypts a directory.
    pub open spec fn records_turn(
        self,
        i: int,
        key: Seq<u8>,
        first: EncryptionStats,
        second: EncryptionStats,
        after: EncryptionStats,
    ) -> bool {
        &&& !self.descends(i) ==> second == first
        &&& records(second, after, self.turn(i, key))
    }

    /// Whether `after` is `before` with everything recorded that the first `n`
    /// exchanges say, in this directory and below it.
    pub open spec fn recorded_upto(
        self,
        n: int,
        key: Seq<u8>,
        before: EncryptionStats,
        after: EncryptionStats,
    ) -> bool
        decreases self, n,
    {
        if n <= 0 || n > self.below.len() {
            records(before, after, directory_decryption(self.path, self.depth))
        } else {
            exists|first: EncryptionStats, second: EncryptionStats|
                {
                    &&& #[trigger] self.records_turn(n - 1, key, first, second, after)
                    &&& self.recorded_upto(n - 1, key, before, first)
                    &&& self.descends(n - 1) ==> self.below[n - 1].recorded_upto(
                        self.below[n - 1].done.len() as int,
                        key,
                        first,
                        second,
                    )
                }
        }
    }

    /// Whether `after` is `before` with everything recorded that the run says.
    pub open spec fn recorded(
        self,
        key: Seq<u8>,
        before: EncryptionStats,
        after: EncryptionStats,
    ) -> bool {
        self.recorded_upto(self.done.len() as int, key, before, after)
    }
}

/// Whether a file at `path` is named like a payload: like a ciphertext, and not
/// like the file that holds the name of a directory.
pub open spec fn is_payload_name(path: Seq<u8>) -> bool {
    is_ciphertext_name(path) && file_name_of(path) != Some(encode_utf8(DIR_MARKER@))
}

/// What counts as a payload before a run counts as one in the run.
pub proof fn law_payloads_are_the_same(entry: TreeEntry)
    ensures
        is_payload(entry) == (entry.is_file && is_payload_name(entry.path@)),
{
}

/// The failures to decrypt a payload among `troubles`.
pub open spec fn file_troubles(troubles: Seq<TroubleView>) -> Seq<TroubleView> {
    troubles.filter(|t: TroubleView| t is File)
}

/// The exchanges before the one with index `i`, and that one.
pub proof fn lemma_step(run: DirectoryRun, i: int, key: Seq<u8>)
    requires
        is_directory_decryption(run.path, run.depth, key, run.done),
        0 <= i < run.done.len(),
    ensures
        run.at(i, key) matches Progress::Running(s) && run.done[i].asked == s.pending()
            && answers(s.pending(), run.done[i].reply),
        run.at(i + 1, key) == run.turn(i, key).next,
    decreases run.done.len(),
{
    let n = run.done.len() as int;
    let before = run.done.drop_last();
    assert(run.done.subrange(0, n) =~= run.done);
    if i == n - 1 {
        assert(run.done.subrange(0, i) =~= before);
    } else {
        let shorter = DirectoryRun { done: before, ..run };
        lemma_step(shorter, i, key);
        assert(before.subrange(0, i) =~= run.done.subrange(0, i));
        assert(before.subrange(0, i + 1) =~= run.done.subrange(0, i + 1));
    }
}

proof fn lemma_no_file_troubles(troubles: Seq<TroubleView>)
    requires
        forall|i: int| 0 <= i < troubles.len() ==> !(#[trigger] troubles[i] is File),
    ensures
        file_troubles(troubles).len() == 0,
    decreases troubles.len(),
{
    reveal(Seq::filter);
    if troubles.len() > 0 {
        lemma_no_file_troubles(troubles.drop_last());
    }
}

proof fn lemma_one_file_trouble(trouble: TroubleView)
    requires
        trouble is File,
    ensures
        file_troubles(seq![trouble]).len() == 1,
{
    reveal(Seq::filter);
    let one = seq![trouble];
    assert(one.drop_last() =~= Seq::empty());
    assert(file_troubles(one.drop_last()).len() == 0);
    assert(one.last() == trouble);
}

proof fn lemma_file_troubles_add(a: Seq<TroubleView>, b: Seq<TroubleView>)
    ensures
        file_troubles(a + b).len() == file_troubles(a).len() + file_troubles(b).len(),
{
    Seq::<TroubleView>::filter_distributes_over_add(a, b, |t: TroubleView| t is File);
}

/// What one exchange adds: a payload that was tried is restored or goes wrong,
/// and the next one to try is one that was found.
proof fn lemma_step_counts(s: DecryptDirectoryView, reply: ReplyView, key: Seq<u8>)
    requires
        answers(s.pending(), reply),
    ensures
        ({
            let turn = s.after(reply, key);
            &&& (if turn.restored {
                1nat
            } else {
                0
            }) + file_troubles(turn.troubles).len() == if s is DecryptEntry {
                1nat
            } else {
                0
            }
            &&& (turn.next matches Progress::Running(DecryptDirectory::DecryptEntry { .. })) <==> (
            s.pending() matches Action::Stat(entry) && is_payload_name(entry) && (
            reply matches Reply::Meta(Ok((kind, _))) && kind == FileKind::File))
        }),
{
    let turn = s.after(reply, key);
    if s is DecryptEntry && !succeeded(reply) {
        lemma_one_file_trouble(turn.troubles[0]);
        assert(turn.troubles =~= seq![turn.troubles[0]]);
    } else {
        lemma_no_file_troubles(turn.troubles);
    }
}

proof fn lemma_counts(run: DirectoryRun, n: int, key: Seq<u8>)
    requires
        run.is_run(key),
        0 <= n <= run.done.len(),
    ensures
        run.restored_upto(n, key) + file_troubles(run.troubles_upto(n, key)).len() + (if (run.at(
            n,
            key,
        ) matches Progress::Running(DecryptDirectory::DecryptEntry { .. })) {
            1nat
        } else {
            0
        }) == run.payloads_upto(n),
    decreases run, n,
{
    if n == 0 {
        assert(run.done.subrange(0, 0) =~= Seq::empty());
        lemma_no_file_troubles(run.troubles_upto(0, key));
    } else {
        let i = n - 1;
        lemma_counts(run, i, key);
        lemma_step(run, i, key);
        let s = run.at(i, key)->Running_0;
        lemma_step_counts(s, run.done[i].reply, key);
        let earlier = run.troubles_upto(i, key);
        let inner = if run.descends(i) {
            run.below[i].troubles_upto(run.below[i].done.len() as int, key)
        } else {
            Seq::empty()
        };
        lemma_file_troubles_add(earlier + inner, run.turn(i, key).troubles);
        lemma_file_troubles_add(earlier, inner);
        if run.descends(i) {
            let below = run.below[i];
            assert(below.is_run(key));
            lemma_counts(below, below.done.len() as int, key);
        } else {
            lemma_no_file_troubles(inner);
        }
    }
}

/// One bad payload never stops the others: of the payloads that are found in a
/// tree, each one is restored or recorded as gone wrong, and nothing else is.
pub proof fn law_every_payload_is_accounted(run: DirectoryRun, key: Seq<u8>)
    requires
        run.is_run(key),
    ensures
        run.restored(key) + file_troubles(run.troubles(key)).len() == run.payloads(),
{
    lemma_counts(run, run.done.len() as int, key);
}

/// No failure passes in silence: whatever fails in the decryption of a directory
/// is recorded, or ends the decryption with an error.
pub proof fn law_no_failure_is_silent(s: DecryptDirectoryView, reply: ReplyView, key: Seq<u8>)
    requires
        answers(s.pending(), reply),
        failed(reply),
    ensures
        s.after(reply, key).troubles.len() > 0 || (s.after(reply, key).next matches Progress::Finished(
            Err(_),
        )),
{
}

/// The file that held the name of a directory and could not be deleted is
/// recorded.
pub proof fn law_kept_marker_is_recorded(
    target: Seq<u8>,
    depth: usize,
    error: FileErrorView,
    key: Seq<u8>,
)
    ensures
        (DecryptDirectoryView::DeleteMarker { target, depth }).after(
            ReplyView::Outcome(Err(error)),
            key,
        ).troubles == seq![TroubleView::Marker(marker_of(target), error)],
{
}

proof fn lemma_troubles_grow(run: DirectoryRun, i: int, n: int, key: Seq<u8>)
    requires
        0 <= i < n <= run.below.len(),
    ensures
        run.troubles_upto(n, key).len() >= run.turn(i, key).troubles.len(),
        run.descends(i) ==> run.troubles_upto(n, key).len() >= run.below[i].troubles(key).len(),
        run.troubles_upto(n, key).len() >= directory_decryption(
            run.path,
            run.depth,
        ).troubles.len(),
    decreases n,
{
    if i < n - 1 {
        lemma_troubles_grow(run, i, n - 1, key);
    } else if i > 0 {
        lemma_troubles_grow(run, i - 1, n - 1, key);
    }
}

/// Where nothing is recorded, nothing failed: a run that ends well, and in which
/// nothing was recorded as gone wrong, was answered well in everything that it
/// asked for, down to the last directory.
pub proof fn law_clean_run_has_no_failure(run: DirectoryRun, key: Seq<u8>)
    requires
        run.is_run(key),
        run.outcome(key) is Ok,
        run.troubles(key).len() == 0,
    ensures
        run.nothing_failed(),
    decreases run,
{
    let n = run.done.len() as int;
    if n > 0 {
        lemma_troubles_grow(run, 0, n, key);
    }
    assert forall|i: int| 0 <= i < n implies !failed((#[trigger] run.done[i]).reply) by {
        lemma_step(run, i, key);
        lemma_troubles_grow(run, i, n, key);
        if failed(run.done[i].reply) {
            law_no_failure_is_silent(run.at(i, key)->Running_0, run.done[i].reply, key);
            if i + 1 < n {
                lemma_step(run, i + 1, key);
            }
        }
    }
    assert forall|i: int, j: int|
        0 <= i < run.files.len() && run.done[i].asked is DecryptFile && 0 <= j
            < run.files[i].len() implies !failed((#[trigger] run.files[i][j]).reply) by {
        assert(run.runs_file(i));
        assert(!failed(run.done[i].reply));
        law_success_had_no_failure(run.done[i].asked->DecryptFile_0, run.files[i], j);
    }
    assert forall|i: int| 0 <= i < run.below.len() && run.descends(i) implies (
    #[trigger] run.below[i]).nothing_failed() by {
        let below = run.below[i];
        lemma_troubles_grow(run, i, n, key);
        assert(!failed(run.done[i].reply));
        law_clean_run_has_no_failure(below, key);
    }
}

/// Whether `after` is `before` with these troubles and this many restored
/// payloads recorded.
pub open spec fn adds(
    before: EncryptionStats,
    after: EncryptionStats,
    troubles: Seq<TroubleView>,
    restored: nat,
) -> bool {
    &&& after.total == before.total
    &&& after.success == before.success + restored
    &&& reports(before.errors@, after.errors@, troubles)
}

proof fn lemma_adds_join(
    first: EncryptionStats,
    second: EncryptionStats,
    third: EncryptionStats,
    a: Seq<TroubleView>,
    m: nat,
    b: Seq<TroubleView>,
    n: nat,
)
    requires
        adds(first, second, a, m),
        adds(second, third, b, n),
    ensures
        adds(first, third, a + b, m + n),
{
    let all = a + b;
    let start = first.errors@.len() as int;
    assert(third.errors@.subrange(0, start) =~= second.errors@.subrange(0, start)) by {
        assert forall|i: int| 0 <= i < start implies third.errors@[i] == second.errors@[i] by {
            assert(third.errors@.subrange(0, second.errors@.len() as int)[i] == second.errors@[i]);
        }
    }
    assert forall|i: int| 0 <= i < all.len() implies trouble_says(
        #[trigger] all[i],
        third.errors@[start + i]@,
    ) by {
        if i < a.len() {
            assert(all[i] == a[i]);
            assert(third.errors@.subrange(0, second.errors@.len() as int)[start + i]
                == second.errors@[start + i]);
        } else {
            assert(all[i] == b[i - a.len()]);
        }
    }
}

proof fn lemma_recorded(
    run: DirectoryRun,
    n: int,
    key: Seq<u8>,
    before: EncryptionStats,
    after: EncryptionStats,
)
    requires
        run.is_run(key),
        0 <= n <= run.done.len(),
        run.recorded_upto(n, key, before, after),
    ensures
        adds(before, after, run.troubles_upto(n, key), run.restored_upto(n, key)),
    decreases run, n,
{
    if n > 0 {
        let i = n - 1;
        let (first, second) = choose|first: EncryptionStats, second: EncryptionStats|
            {
                &&& #[trigger] run.records_turn(n - 1, key, first, second, after)
                &&& run.recorded_upto(n - 1, key, before, first)
                &&& run.descends(n - 1) ==> run.below[n - 1].recorded_upto(
                    run.below[n - 1].done.len() as int,
                    key,
                    first,
                    second,
                )
            };
        lemma_recorded(run, i, key, before, first);
        let turn = run.turn(i, key);
        let inner = if run.descends(i) {
            run.below[i].troubles(key)
        } else {
            Seq::empty()
        };
        let inner_restored = if run.descends(i) {
            run.below[i].restored(key)
        } else {
            0
        };
        if run.descends(i) {
            let below = run.below[i];
            assert(below.is_run(key));
            lemma_recorded(below, below.done.len() as int, key, first, second);
        } else {
            assert(first.errors@.subrange(0, first.errors@.len() as int) =~= first.errors@);
        }
        let earlier = run.troubles_upto(i, key);
        let earlier_restored = run.restored_upto(i, key);
        lemma_adds_join(before, first, second, earlier, earlier_restored, inner, inner_restored);
        lemma_adds_join(
            before,
            second,
            after,
            earlier + inner,
            earlier_restored + inner_restored,
            turn.troubles,
            if turn.restored {
                1nat
            } else {
                0
            },
        );
    }
}

/// The numbers tell the truth: what a run has recorded at its end, beyond what
/// was recorded before, are the payloads that it has restored and a line for
/// everything that went wrong, in this directory and below it. The number of
/// payloads at the beginning, and what was recorded before, stay as they were.
pub proof fn law_everything_is_recorded(
    run: DirectoryRun,
    key: Seq<u8>,
    before: EncryptionStats,
    after: EncryptionStats,
)
    requires
        run.is_run(key),
        run.recorded(key, before, after),
    ensures
        adds(before, after, run.troubles(key), run.restored(key)),
{
    lemma_recorded(run, run.done.len() as int, key, before, after);
}

/// Whether the name of the directory can be read, if it was looked for in the
/// exchanges `done`: it opens under `key`, is text, and names something.
pub open spec fn name_can_be_read(done: Seq<Exchange<()>>, key: Seq<u8>) -> bool {
    done.len() > 1 ==> (done[1].reply matches Reply::Bytes(Ok(sealed)) ==> {
        &&& simple_opened(sealed, key) matches Ok(stored)
        &&& valid_utf8(stored)
        &&& file_name_of(stored) is Some
    })
}

/// Where a run in which everything goes well stands after its first `n` exchanges.
spec fn stands_well(run: DirectoryRun, key: Seq<u8>, n: int) -> bool {
    &&& run.troubles_upto(n, key).len() == 0
    &&& match run.at(n, key) {
        Progress::Running(DecryptDirectory::FindMarker { .. }) => n == 0,
        Progress::Running(DecryptDirectory::ReadMarker { .. }) => n == 1,
        Progress::Running(DecryptDirectory::Choose { wanted, taken, .. }) => {
            &&& n == 2 + taken
            &&& taken < VARIANT_LIMIT
            &&& file_name_of(wanted) matches Some(name)
            &&& valid_utf8(name)
            &&& forall|i: int|
                2 <= i < n ==> (#[trigger] run.done[i]).reply == ReplyView::Answer(true)
        },
        Progress::Running(_) => true,
        Progress::Finished(r) => r is Ok,
    }
}

/// One more exchange, in which nothing fails.
proof fn lemma_goes_well(run: DirectoryRun, key: Seq<u8>, k: int)
    requires
        is_directory_decryption(run.path, run.depth, key, run.done),
        run.below.len() == run.done.len(),
        name_can_be_read(run.done, key),
        !all_variants_taken(run.done),
        0 <= k < run.done.len(),
        stands_well(run, key, k),
        !failed(run.done[k].reply),
        run.descends(k) ==> run.below[k].troubles(key).len() == 0,
    ensures
        stands_well(run, key, k + 1),
{
    lemma_step(run, k, key);
    match run.at(k, key)->Running_0 {
        DecryptDirectory::ReadMarker { path, .. } => {
            let stored = simple_opened(run.done[k].reply->Bytes_0->Ok_0, key)->Ok_0;
            let name = file_name_of(stored)->Some_0;
            law_file_name_stays_text(stored);
            law_file_name_is_plain(stored);
            law_join_file_name(parent_or_dot(path), name);
        },
        DecryptDirectory::Choose { wanted, taken, .. } => {
            if taken + 1 < VARIANT_LIMIT {
                law_variants_exist(wanted, (taken + 1) as u64);
            }
        },
        _ => {},
    }
}

/// A decryption of a whole tree in which nothing fails succeeds, records nothing
/// as gone wrong, and restores every payload that it finds.
pub proof fn law_faithful_tree_decryption_succeeds(run: DirectoryRun, key: Seq<u8>)
    requires
        run.is_run(key),
        run.goes_well(key),
    ensures
        run.outcome(key) is Ok,
        run.troubles(key).len() == 0,
        run.restored(key) == run.payloads(),
    decreases run, run.done.len() + 1,
{
    lemma_run_goes_well(run, key, run.done.len() as int);
    law_every_payload_is_accounted(run, key);
    lemma_no_file_troubles(run.troubles(key));
}

proof fn lemma_run_goes_well(run: DirectoryRun, key: Seq<u8>, n: int)
    requires
        run.is_run(key),
        run.goes_well(key),
        0 <= n <= run.done.len(),
    ensures
        stands_well(run, key, n),
    decreases run, n,
{
    if n == 0 {
        assert(run.done.subrange(0, 0) =~= Seq::empty());
    } else {
        let k = n - 1;
        lemma_run_goes_well(run, key, k);
        lemma_step(run, k, key);
        match run.done[k].asked {
            Action::DecryptFile(entry) => {
                assert(run.runs_file(k));
                law_faithful_decryption_succeeds(entry, run.files[k]);
            },
            Action::DecryptDirectory(_, _) => {
                assert(run.below[k].is_run(key));
                law_faithful_tree_decryption_succeeds(run.below[k], key);
            },
            _ => {},
        }
        lemma_goes_well(run, key, k);
    }
}

/// Whatever stands before it, a name that ends in `.enc` names a payload, unless it
/// is the name of the file that holds the name of a directory. No other name does.
/// The names are spoken of by their bytes.
pub proof fn law_every_enc_name_is_a_payload(dir: Seq<u8>, front: Seq<u8>, name: Seq<u8>)
    requires
        front.len() > 0,
        !front.contains(47u8),
        is_plain_name(name),
    ensures
        is_payload_name(join_of(dir, front + seq![46u8, 101u8, 110u8, 99u8])) <==> front != seq![
            46u8,
            100u8,
            105u8,
            114u8,
            110u8,
            97u8,
            109u8,
            101u8,
        ],
        is_payload_name(join_of(dir, name)) ==> {
            let n = name.len();
            &&& n > 4
            &&& name[n - 4] == 46u8
            &&& name[n - 3] == 101u8
            &&& name[n - 2] == 110u8
            &&& name[n - 1] == 99u8
        },
{
    let enc = seq![101u8, 110u8, 99u8];
    let ended = front + seq![46u8, 101u8, 110u8, 99u8];
    let base = seq![46u8, 100u8, 105u8, 114u8, 110u8, 97u8, 109u8, 101u8];
    reveal_strlit("enc");
    reveal_strlit(".dirname.enc");
    is_ascii_chars_encode_utf8("enc"@);
    is_ascii_chars_encode_utf8(DIR_MARKER@);
    let marker = encode_utf8(DIR_MARKER@);
    assert(encode_utf8("enc"@) =~= enc);
    assert(marker =~= base + seq![46u8, 101u8, 110u8, 99u8]);
    assert(ended.len() >= 5);
    assert(!ended.contains(47u8)) by {
        if ended.contains(47u8) {
            let i = choose|i: int| 0 <= i < ended.len() && ended[i] == 47u8;
            assert(front.contains(front[i]));
        }
    }
    assert(is_plain_name(ended));
    law_join_file_name(dir, ended);
    lemma_last_dot(ended, front.len() as int);
    assert(ended.skip(front.len() as int + 1) =~= enc);
    if front == base {
        assert(ended =~= marker);
    } else if ended == marker {
        assert(ended.subrange(0, front.len() as int) =~= front);
        assert(marker.subrange(0, 8) =~= base);
    }
    law_join_file_name(dir, name);
    if is_payload_name(join_of(dir, name)) {
        let at = last_dot(name);
        lemma_dot_at_last_dot(name);
        let ext = name.skip(at + 1);
        assert(ext == enc);
        assert(ext[0] == name[at + 1] && ext[1] == name[at + 2] && ext[2] == name[at + 3]);
    }
}

/// In the decryption of a directory, whatever is found to be a payload is decrypted
/// next, whatever its size, and whatever is not is not.
pub proof fn law_found_payload_is_decrypted(run: DirectoryRun, key: Seq<u8>, i: int)
    requires
        is_directory_decryption(run.path, run.depth, key, run.done),
        0 <= i < run.done.len() - 1,
    ensures
        (run.done[i].asked matches Action::Stat(entry) && is_payload_name(entry) && (
        run.done[i].reply matches Reply::Meta(Ok((FileKind::File, _))))) ==> run.done[i + 1].asked
            == ActionView::DecryptFile(run.done[i].asked->Stat_0),
        run.done[i + 1].asked matches Action::DecryptFile(entry) ==> is_payload_name(entry)
            && run.done[i].asked == ActionView::Stat(entry) && (
        run.done[i].reply matches Reply::Meta(Ok((FileKind::File, _)))),
{
    lemma_step(run, i, key);
    lemma_step(run, i + 1, key);
}

} // verus!

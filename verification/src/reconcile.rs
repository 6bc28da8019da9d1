//! The merge of one file: the three-way comparison of what is on disk now,
//! what the snapshot held and what the user wants, line by line.
//!
//! A line whose disk text already is what the user wants is satisfied. A line
//! that is on disk as in the snapshot is pending: it can be changed. A line
//! that differs from both is a conflict: someone else changed it in between.
//! One conflict stops the whole file. Without conflicts the pending edits are
//! applied to the current lines, and the new text ends in a line feed exactly
//! if the snapshot did.

use crate::parser::{FileEdits, Outcome, OutcomeView};
use crate::text::{append_joined, chars_equal, chars_of, copy_chars, ends_with_newline, join_lines, lines_of, lines_view, split_lines, string_of};
use vstd::prelude::*;

verus! {

/// How an intent stands to the disk and the snapshot.
#[derive(Clone, Copy, Debug, PartialEq, Eq, Structural)]
pub enum LineStatus {
    /// The disk already holds what the user wants.
    Satisfied,
    /// The disk holds what the snapshot held, and the user wants something else.
    Pending,
    /// The disk holds neither what the snapshot held nor what the user wants.
    Conflict,
}

/// A line on which the merge of a file failed.
#[derive(Clone, Debug, PartialEq, Eq)]
pub struct ConflictLine {
    pub line_number: usize,
    /// The text of the line in the snapshot.
    pub original: String,
    /// The text that the user wanted; empty for a deletion.
    pub attempted: String,
}

/// What a `ConflictLine` stands for.
pub struct ConflictView {
    pub line_number: nat,
    pub original: Seq<char>,
    pub attempted: Seq<char>,
}

impl View for ConflictLine {
    type V = ConflictView;

    open spec fn view(&self) -> ConflictView {
        ConflictView {
            line_number: self.line_number as nat,
            original: self.original@,
            attempted: self.attempted@,
        }
    }
}

/// The views of a vector of conflicts.
pub open spec fn conflicts_view(v: Seq<ConflictLine>) -> Seq<ConflictView> {
    Seq::new(v.len(), |i: int| v[i]@)
}

/// What the merge of one file comes to.
#[derive(Clone, Debug, PartialEq, Eq)]
pub enum ReconciliationOutcome {
    /// Nothing is to be written: there is no pending edit.
    NoOp,
    /// The file is to be rewritten with this text.
    Applied(String),
    /// The file is to be left alone; these lines conflict.
    Conflict(Vec<ConflictLine>),
}

/// What a `ReconciliationOutcome` stands for.
pub enum OutcomeOfMerge {
    NoOp,
    Applied(Seq<char>),
    Conflict(Seq<ConflictView>),
}

impl View for ReconciliationOutcome {
    type V = OutcomeOfMerge;

    open spec fn view(&self) -> OutcomeOfMerge {
        match self {
            ReconciliationOutcome::NoOp => OutcomeOfMerge::NoOp,
            ReconciliationOutcome::Applied(text) => OutcomeOfMerge::Applied(text@),
            ReconciliationOutcome::Conflict(lines) => OutcomeOfMerge::Conflict(
                conflicts_view(lines@),
            ),
        }
    }
}

/// The merge of one file, with the number of its lines that count as changed.
#[derive(Clone, Debug, PartialEq, Eq)]
pub struct Reconciliation {
    pub outcome: ReconciliationOutcome,
    pub changed_lines: usize,
}

// ---------------------------------------------------------------------------
// The merge as mathematics
// ---------------------------------------------------------------------------

/// The text of line `n`, counted from 1, or the empty text if there is no such
/// line.
pub open spec fn line_at(lines: Seq<Seq<char>>, n: nat) -> Seq<char> {
    if 1 <= n <= lines.len() {
        lines[n - 1]
    } else {
        Seq::empty()
    }
}

/// The text that an outcome asks for: nothing for a deletion.
pub open spec fn wanted_text(outcome: OutcomeView) -> Seq<char> {
    match outcome {
        OutcomeView::Delete => Seq::empty(),
        OutcomeView::Replace(text) => text,
    }
}

/// The three-way comparison.
pub open spec fn status(disk: Seq<char>, original: Seq<char>, wanted: Seq<char>) -> LineStatus {
    if disk == wanted {
        LineStatus::Satisfied
    } else if disk == original {
        LineStatus::Pending
    } else {
        LineStatus::Conflict
    }
}

/// The status of the intent for line `n`.
pub open spec fn status_of(
    current: Seq<Seq<char>>,
    original: Seq<Seq<char>>,
    edits: Map<nat, OutcomeView>,
    n: nat,
) -> LineStatus {
    status(line_at(current, n), line_at(original, n), wanted_text(edits[n]))
}

/// The conflicts among the intents for lines 1 to `k`, in line order.
pub open spec fn conflicts_upto(
    current: Seq<Seq<char>>,
    original: Seq<Seq<char>>,
    edits: Map<nat, OutcomeView>,
    k: nat,
) -> Seq<ConflictView>
    decreases k,
{
    if k == 0 {
        Seq::empty()
    } else {
        let before = conflicts_upto(current, original, edits, (k - 1) as nat);
        if edits.contains_key(k) && status_of(current, original, edits, k) == LineStatus::Conflict {
            before.push(
                ConflictView {
                    line_number: k,
                    original: line_at(original, k),
                    attempted: wanted_text(edits[k]),
                },
            )
        } else {
            before
        }
    }
}

/// How many of the intents for lines 1 to `k` are pending.
pub open spec fn pending_upto(
    current: Seq<Seq<char>>,
    original: Seq<Seq<char>>,
    edits: Map<nat, OutcomeView>,
    k: nat,
) -> nat
    decreases k,
{
    if k == 0 {
        0
    } else {
        pending_upto(current, original, edits, (k - 1) as nat) + if edits.contains_key(k)
            && status_of(current, original, edits, k) == LineStatus::Pending {
            1nat
        } else {
            0nat
        }
    }
}

/// Whether the intent for line `n` counts as a changed line: it is satisfied,
/// or it is pending and the file still has that line to change.
pub open spec fn counts_as_changed(
    current: Seq<Seq<char>>,
    original: Seq<Seq<char>>,
    edits: Map<nat, OutcomeView>,
    n: nat,
) -> bool {
    edits.contains_key(n) && match status_of(current, original, edits, n) {
        LineStatus::Satisfied => true,
        LineStatus::Pending => n <= current.len(),
        LineStatus::Conflict => false,
    }
}

/// How many of the intents for lines 1 to `k` count as changed lines.
pub open spec fn changed_upto(
    current: Seq<Seq<char>>,
    original: Seq<Seq<char>>,
    edits: Map<nat, OutcomeView>,
    k: nat,
) -> nat
    decreases k,
{
    if k == 0 {
        0
    } else {
        changed_upto(current, original, edits, (k - 1) as nat) + if counts_as_changed(
            current,
            original,
            edits,
            k,
        ) {
            1nat
        } else {
            0nat
        }
    }
}

/// The first `k` current lines with the pending edits applied: a pending
/// replacement puts the wanted text in the line's place, a pending deletion
/// leaves the line out, and every other line stays as it is.
pub open spec fn merged_upto(
    current: Seq<Seq<char>>,
    original: Seq<Seq<char>>,
    edits: Map<nat, OutcomeView>,
    k: nat,
) -> Seq<Seq<char>>
    decreases k,
{
    if k == 0 {
        Seq::empty()
    } else {
        let before = merged_upto(current, original, edits, (k - 1) as nat);
        if edits.contains_key(k) && status_of(current, original, edits, k) == LineStatus::Pending {
            match edits[k] {
                OutcomeView::Delete => before,
                OutcomeView::Replace(text) => before.push(text),
            }
        } else {
            before.push(current[k - 1])
        }
    }
}

/// The text of the rewritten file: the merged lines joined by line feeds, with
/// a line feed at the end exactly if the snapshot ended in one.
pub open spec fn rebuilt_text(
    original: Seq<char>,
    current: Seq<char>,
    edits: Map<nat, OutcomeView>,
) -> Seq<char> {
    let lines = merged_upto(
        split_lines(current),
        split_lines(original),
        edits,
        split_lines(current).len(),
    );
    if original.len() > 0 && original.last() == '\n' {
        join_lines(lines).push('\n')
    } else {
        join_lines(lines)
    }
}

/// What the merge of a file comes to. `bound` is a line number that no intent
/// goes beyond.
pub open spec fn merge_outcome(
    original: Seq<char>,
    current: Seq<char>,
    edits: Map<nat, OutcomeView>,
    bound: nat,
) -> OutcomeOfMerge {
    let cur = split_lines(current);
    let orig = split_lines(original);
    if conflicts_upto(cur, orig, edits, bound).len() > 0 {
        OutcomeOfMerge::Conflict(conflicts_upto(cur, orig, edits, bound))
    } else if pending_upto(cur, orig, edits, bound) > 0 {
        OutcomeOfMerge::Applied(rebuilt_text(original, current, edits))
    } else {
        OutcomeOfMerge::NoOp
    }
}

/// How many lines of the file count as changed: none if a line conflicts,
/// else the satisfied intents and the pending ones that were applied.
pub open spec fn merge_changed(
    original: Seq<char>,
    current: Seq<char>,
    edits: Map<nat, OutcomeView>,
    bound: nat,
) -> nat {
    let cur = split_lines(current);
    let orig = split_lines(original);
    if conflicts_upto(cur, orig, edits, bound).len() > 0 {
        0
    } else {
        changed_upto(cur, orig, edits, bound)
    }
}

// ---------------------------------------------------------------------------
// The merge
// ---------------------------------------------------------------------------

/// Compares the three texts of one line.
pub fn line_status(disk: &[char], original: &[char], wanted: &[char]) -> (s: LineStatus)
    ensures
        s == status(disk@, original@, wanted@),
{
    if chars_equal(disk, wanted) {
        LineStatus::Satisfied
    } else if chars_equal(disk, original) {
        LineStatus::Pending
    } else {
        LineStatus::Conflict
    }
}

/// The text of line `n`, or the empty text.
fn line_or_empty(lines: &Vec<Vec<char>>, n: usize) -> (v: Vec<char>)
    ensures
        v@ == line_at(lines_view(lines@), n as nat),
{
    if 1 <= n && n <= lines.len() {
        copy_chars(lines[n - 1].as_slice())
    } else {
        Vec::new()
    }
}

/// The text that an outcome asks for.
fn wanted_chars(outcome: &Outcome) -> (v: Vec<char>)
    ensures
        v@ == wanted_text(outcome@),
{
    match outcome {
        Outcome::Delete => Vec::new(),
        Outcome::Replace(text) => chars_of(text.as_str()),
    }
}

/// The current lines with the pending edits applied.
fn merge_lines(current: &Vec<Vec<char>>, original: &Vec<Vec<char>>, edits: &FileEdits) -> (out:
    Vec<Vec<char>>)
    ensures
        lines_view(out@) == merged_upto(
            lines_view(current@),
            lines_view(original@),
            edits@,
            current@.len() as nat,
        ),
{
    let ghost cur = lines_view(current@);
    let ghost orig = lines_view(original@);
    let mut out: Vec<Vec<char>> = Vec::new();
    let mut i: usize = 0;
    assert(lines_view(out@) =~= Seq::<Seq<char>>::empty());
    while i < current.len()
        invariant
            i <= current@.len(),
            cur == lines_view(current@),
            orig == lines_view(original@),
            lines_view(out@) == merged_upto(cur, orig, edits@, i as nat),
        decreases current.len() - i,
    {
        let n: usize = i + 1;
        let ghost before = lines_view(out@);
        assert(cur[i as int] == current@[i as int]@);
        match edits.get(n) {
            None => {
                out.push(copy_chars(current[i].as_slice()));
                assert(lines_view(out@) =~= before.push(cur[i as int]));
            },
            Some(outcome) => {
                let wanted = wanted_chars(outcome);
                let old_line = line_or_empty(original, n);
                let s = line_status(current[i].as_slice(), old_line.as_slice(), wanted.as_slice());
                assert(s == status_of(cur, orig, edits@, n as nat));
                match s {
                    LineStatus::Pending => {
                        match outcome {
                            Outcome::Delete => {},
                            Outcome::Replace(_) => {
                                out.push(wanted);
                                assert(lines_view(out@) =~= before.push(wanted@));
                            },
                        }
                    },
                    _ => {
                        out.push(copy_chars(current[i].as_slice()));
                        assert(lines_view(out@) =~= before.push(cur[i as int]));
                    },
                }
            },
        }
        i += 1;
    }
    out
}

/// Merges the intents for one file into its current text.
///
/// `original` is the snapshot, `current` what is on disk now. The result says
/// whether the file conflicts, is to be rewritten, or needs no write, and how
/// many of its lines count as changed.
pub fn reconcile_file(original: &str, current: &str, edits: &FileEdits) -> (r: Reconciliation)
    ensures
        r.outcome@ == merge_outcome(original@, current@, edits@, edits.line_count()),
        r.changed_lines == merge_changed(original@, current@, edits@, edits.line_count()),
{
    let original_chars = chars_of(original);
    let current_chars = chars_of(current);
    let original_lines = lines_of(original_chars.as_slice());
    let current_lines = lines_of(current_chars.as_slice());
    let ghost cur = lines_view(current_lines@);
    let ghost orig = lines_view(original_lines@);
    let bound: usize = edits.capacity();
    let mut conflicts: Vec<ConflictLine> = Vec::new();
    let mut pending: usize = 0;
    let mut changed: usize = 0;
    let mut i: usize = 0;
    assert(conflicts_view(conflicts@) =~= Seq::<ConflictView>::empty());
    while i < bound
        invariant
            i <= bound,
            cur == lines_view(current_lines@),
            orig == lines_view(original_lines@),
            pending <= i,
            changed <= i,
            conflicts_view(conflicts@) == conflicts_upto(cur, orig, edits@, i as nat),
            pending == pending_upto(cur, orig, edits@, i as nat),
            changed == changed_upto(cur, orig, edits@, i as nat),
        decreases bound - i,
    {
        let n: usize = i + 1;
        match edits.get(n) {
            None => {},
            Some(outcome) => {
                let wanted = wanted_chars(outcome);
                let disk = line_or_empty(&current_lines, n);
                let old_line = line_or_empty(&original_lines, n);
                let s = line_status(disk.as_slice(), old_line.as_slice(), wanted.as_slice());
                assert(s == status_of(cur, orig, edits@, n as nat));
                match s {
                    LineStatus::Satisfied => {
                        changed = changed + 1;
                    },
                    LineStatus::Pending => {
                        pending = pending + 1;
                        if n <= current_lines.len() {
                            changed = changed + 1;
                        }
                    },
                    LineStatus::Conflict => {
                        let ghost before = conflicts_view(conflicts@);
                        let c = ConflictLine {
                            line_number: n,
                            original: string_of(old_line.as_slice()),
                            attempted: string_of(wanted.as_slice()),
                        };
                        conflicts.push(c);
                        assert(conflicts_view(conflicts@) =~= before.push(c@));
                    },
                }
            },
        }
        i += 1;
    }
    if conflicts.len() > 0 {
        Reconciliation { outcome: ReconciliationOutcome::Conflict(conflicts), changed_lines: 0 }
    } else if pending > 0 {
        let merged = merge_lines(&current_lines, &original_lines, edits);
        let mut out: Vec<char> = Vec::new();
        append_joined(&mut out, &merged);
        assert(out@ =~= join_lines(lines_view(merged@)));
        if ends_with_newline(original_chars.as_slice()) {
            out.push('\n');
        }
        let text = string_of(out.as_slice());
        Reconciliation { outcome: ReconciliationOutcome::Applied(text), changed_lines: changed }
    } else {
        Reconciliation { outcome: ReconciliationOutcome::NoOp, changed_lines: changed }
    }
}

// ---------------------------------------------------------------------------
// The tally of a session
// ---------------------------------------------------------------------------

/// The counts that a session reports at its end.
#[derive(Clone, Copy, Debug, PartialEq, Eq, Structural)]
pub struct Summary {
    /// Lines that were changed or found already changed.
    pub changed_lines: usize,
    /// Files that were rewritten or found up to date.
    pub changed_files: usize,
    /// All recognized data lines of the buffer.
    pub total_lines: usize,
    /// All tracked files.
    pub total_files: usize,
}

/// Whether the merge of a file counts the file as changed: it was rewritten,
/// or it needed no write and had at least one satisfied line.
pub open spec fn counts_file(outcome: OutcomeOfMerge, changed_lines: nat) -> bool {
    match outcome {
        OutcomeOfMerge::Applied(_) => true,
        OutcomeOfMerge::NoOp => changed_lines > 0,
        OutcomeOfMerge::Conflict(_) => false,
    }
}

impl Summary {
    /// The tally before any file is merged.
    pub fn new(total_lines: usize, total_files: usize) -> (s: Summary)
        ensures
            s == (Summary { changed_lines: 0, changed_files: 0, total_lines, total_files }),
    {
        Summary { changed_lines: 0, changed_files: 0, total_lines, total_files }
    }

    /// Adds the merge of one file to the tally. A file with a conflict adds
    /// nothing.
    pub fn record(&mut self, r: &Reconciliation)
        requires
            old(self).changed_lines + r.changed_lines <= usize::MAX,
            old(self).changed_files < usize::MAX,
        ensures
            final(self).total_lines == old(self).total_lines,
            final(self).total_files == old(self).total_files,
            final(self).changed_lines == if r.outcome@ is Conflict {
                old(self).changed_lines as int
            } else {
                old(self).changed_lines + r.changed_lines
            },
            final(self).changed_files == if counts_file(r.outcome@, r.changed_lines as nat) {
                old(self).changed_files + 1
            } else {
                old(self).changed_files as int
            },
    {
        match &r.outcome {
            ReconciliationOutcome::Conflict(_) => {},
            ReconciliationOutcome::Applied(_) => {
                self.changed_lines = self.changed_lines + r.changed_lines;
                self.changed_files = self.changed_files + 1;
            },
            ReconciliationOutcome::NoOp => {
                self.changed_lines = self.changed_lines + r.changed_lines;
                if r.changed_lines > 0 {
                    self.changed_files = self.changed_files + 1;
                }
            },
        }
    }
}

} // verus!

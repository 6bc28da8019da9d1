//! What a session tells the user: for a conflicting line the two texts with
//! their differences marked, and at the end the counts of changed and
//! unchanged lines and files.
//!
//! The library lays the reports out as plain values; colouring and printing
//! them is left to the caller.

use crate::reconcile::Summary;
use crate::text::{append_decimal, append_padded, append_str, decimal, digit_count, pad_left, string_of};
use vstd::prelude::*;

verus! {

/// What a piece of a character diff is.
#[derive(Clone, Copy, Debug, PartialEq, Eq, Structural)]
pub enum DiffTag {
    /// The piece is in both texts.
    Equal,
    /// The piece is in the first text only.
    Delete,
    /// The piece is in the second text only.
    Insert,
}

/// One piece of a character diff.
#[derive(Clone, Debug, PartialEq, Eq)]
pub struct DiffPiece {
    pub tag: DiffTag,
    pub text: String,
}

/// What a `DiffPiece` stands for.
pub struct PieceView {
    pub tag: DiffTag,
    pub text: Seq<char>,
}

impl View for DiffPiece {
    type V = PieceView;

    open spec fn view(&self) -> PieceView {
        PieceView { tag: self.tag, text: self.text@ }
    }
}

/// The views of a vector of pieces.
pub open spec fn pieces_view(v: Seq<DiffPiece>) -> Seq<PieceView> {
    Seq::new(v.len(), |i: int| v[i]@)
}

/// The changes that `similar` finds between two texts, compared character by
/// character with its default settings.
pub uninterp spec fn char_changes(original: Seq<char>, updated: Seq<char>) -> Seq<PieceView>;

/// `similar::TextDiff::from_chars`, then `TextDiff::iter_all_changes`: the
/// character-level diff of the two texts as a flat list of changes, each with
/// its tag (`Change::tag`) and its text (`Change::value`). The diff is made
/// with the crate's default algorithm and without a deadline, so the same two
/// texts always give the same changes.
#[verifier::external_body]
fn diff_chars(original: &str, updated: &str) -> (pieces: Vec<DiffPiece>)
    ensures
        pieces_view(pieces@) == char_changes(original@, updated@),
{
    let diff = similar::TextDiff::from_chars(original, updated);
    diff.iter_all_changes().map(
        |change|
            DiffPiece {
                tag: match change.tag() {
                    similar::ChangeTag::Equal => DiffTag::Equal,
                    similar::ChangeTag::Delete => DiffTag::Delete,
                    similar::ChangeTag::Insert => DiffTag::Insert,
                },
                text: change.value().to_string(),
            },
    ).collect()
}

/// A stretch of a report line; a marked stretch is one that the other text
/// does not have.
#[derive(Clone, Debug, PartialEq, Eq)]
pub struct Segment {
    pub text: String,
    pub marked: bool,
}

/// What a `Segment` stands for.
pub struct SegmentView {
    pub text: Seq<char>,
    pub marked: bool,
}

impl View for Segment {
    type V = SegmentView;

    open spec fn view(&self) -> SegmentView {
        SegmentView { text: self.text@, marked: self.marked }
    }
}

/// The views of a vector of segments.
pub open spec fn segments_view(v: Seq<Segment>) -> Seq<SegmentView> {
    Seq::new(v.len(), |i: int| v[i]@)
}

/// The report of one conflicting line, as two lines: the original text with
/// what was removed marked, and the attempted text with what was added marked.
#[derive(Clone, Debug, PartialEq, Eq)]
pub struct ConflictReport {
    pub original_prefix: String,
    pub original: Vec<Segment>,
    pub attempted_prefix: String,
    pub attempted: Vec<Segment>,
}

/// What a `ConflictReport` stands for.
pub struct ReportView {
    pub original_prefix: Seq<char>,
    pub original: Seq<SegmentView>,
    pub attempted_prefix: Seq<char>,
    pub attempted: Seq<SegmentView>,
}

impl View for ConflictReport {
    type V = ReportView;

    open spec fn view(&self) -> ReportView {
        ReportView {
            original_prefix: self.original_prefix@,
            original: segments_view(self.original@),
            attempted_prefix: self.attempted_prefix@,
            attempted: segments_view(self.attempted@),
        }
    }
}

/// The columns that the line number of a report is right-aligned in.
pub const REPORT_NUMBER_WIDTH: usize = 4;

/// The segments of the first report line: every piece but the inserted ones,
/// the deleted ones marked.
pub open spec fn original_segments(pieces: Seq<PieceView>) -> Seq<SegmentView>
    decreases pieces.len(),
{
    if pieces.len() == 0 {
        Seq::empty()
    } else {
        let before = original_segments(pieces.drop_last());
        match pieces.last().tag {
            DiffTag::Insert => before,
            DiffTag::Delete => before.push(SegmentView { text: pieces.last().text, marked: true }),
            DiffTag::Equal => before.push(SegmentView { text: pieces.last().text, marked: false }),
        }
    }
}

/// The segments of the second report line: every piece but the deleted ones,
/// the inserted ones marked.
pub open spec fn attempted_segments(pieces: Seq<PieceView>) -> Seq<SegmentView>
    decreases pieces.len(),
{
    if pieces.len() == 0 {
        Seq::empty()
    } else {
        let before = attempted_segments(pieces.drop_last());
        match pieces.last().tag {
            DiffTag::Delete => before,
            DiffTag::Insert => before.push(SegmentView { text: pieces.last().text, marked: true }),
            DiffTag::Equal => before.push(SegmentView { text: pieces.last().text, marked: false }),
        }
    }
}

/// The report for line `line_number` whose diff is `pieces`.
pub open spec fn report_of(line_number: nat, pieces: Seq<PieceView>) -> ReportView {
    ReportView {
        original_prefix: " orig: "@ + pad_left(decimal(line_number), REPORT_NUMBER_WIDTH as nat)
            + " ░ "@,
        original: original_segments(pieces),
        attempted_prefix: "okapi:  "@ + pad_left(decimal(line_number), REPORT_NUMBER_WIDTH as nat)
            + " > ░ "@,
        attempted: attempted_segments(pieces),
    }
}

/// `head`, the number right-aligned in four columns, `tail`.
fn prefix(head: &str, line_number: usize, tail: &str) -> (s: String)
    ensures
        s@ == head@ + pad_left(decimal(line_number as nat), REPORT_NUMBER_WIDTH as nat) + tail@,
{
    let mut out: Vec<char> = Vec::new();
    append_str(&mut out, head);
    let mut number: Vec<char> = Vec::new();
    append_decimal(&mut number, line_number);
    assert(number@ =~= decimal(line_number as nat));
    append_padded(&mut out, number.as_slice(), REPORT_NUMBER_WIDTH);
    append_str(&mut out, tail);
    assert(out@ =~= head@ + pad_left(decimal(line_number as nat), REPORT_NUMBER_WIDTH as nat)
        + tail@);
    string_of(out.as_slice())
}

/// Lays out the report of a conflicting line from the pieces of its diff.
pub fn layout_report(line_number: usize, pieces: &Vec<DiffPiece>) -> (r: ConflictReport)
    ensures
        r@ == report_of(line_number as nat, pieces_view(pieces@)),
{
    let ghost all = pieces_view(pieces@);
    let mut original: Vec<Segment> = Vec::new();
    let mut attempted: Vec<Segment> = Vec::new();
    let mut i: usize = 0;
    proof {
        assert(all.take(0) =~= Seq::<PieceView>::empty());
        assert(segments_view(original@) =~= Seq::<SegmentView>::empty());
        assert(segments_view(attempted@) =~= Seq::<SegmentView>::empty());
    }
    while i < pieces.len()
        invariant
            i <= pieces@.len(),
            all == pieces_view(pieces@),
            segments_view(original@) == original_segments(all.take(i as int)),
            segments_view(attempted@) == attempted_segments(all.take(i as int)),
        decreases pieces.len() - i,
    {
        let piece = &pieces[i];
        let ghost upto = all.take(i + 1);
        let ghost before_original = segments_view(original@);
        let ghost before_attempted = segments_view(attempted@);
        proof {
            assert(upto.drop_last() =~= all.take(i as int));
            assert(upto.last() == piece@);
        }
        match piece.tag {
            DiffTag::Equal => {
                let a = Segment { text: piece.text.clone(), marked: false };
                let b = Segment { text: piece.text.clone(), marked: false };
                original.push(a);
                attempted.push(b);
                assert(segments_view(original@) =~= before_original.push(a@));
                assert(segments_view(attempted@) =~= before_attempted.push(b@));
            },
            DiffTag::Delete => {
                let a = Segment { text: piece.text.clone(), marked: true };
                original.push(a);
                assert(segments_view(original@) =~= before_original.push(a@));
            },
            DiffTag::Insert => {
                let b = Segment { text: piece.text.clone(), marked: true };
                attempted.push(b);
                assert(segments_view(attempted@) =~= before_attempted.push(b@));
            },
        }
        i += 1;
    }
    assert(all.take(pieces@.len() as int) =~= all);
    ConflictReport {
        original_prefix: prefix(" orig: ", line_number, " ░ "),
        original,
        attempted_prefix: prefix("okapi:  ", line_number, " > ░ "),
        attempted,
    }
}

/// The report of a conflicting line: the character diff between the text of
/// the snapshot and the text that the user wanted, laid out as two lines.
pub fn conflict_report(line_number: usize, original: &str, attempted: &str) -> (r: ConflictReport)
    ensures
        r@ == report_of(line_number as nat, char_changes(original@, attempted@)),
{
    let pieces = diff_chars(original, attempted);
    layout_report(line_number, &pieces)
}

// ---------------------------------------------------------------------------
// The summary
// ---------------------------------------------------------------------------

/// The larger of two numbers.
pub open spec fn larger(a: nat, b: nat) -> nat {
    if a >= b {
        a
    } else {
        b
    }
}

/// The width of the summary's columns: the count of digits of the largest of
/// the four counts that it shows.
pub open spec fn summary_width(s: Summary) -> nat {
    larger(
        larger(
            decimal(s.changed_lines as nat).len(),
            decimal(s.changed_files as nat).len(),
        ),
        larger(
            decimal((s.total_lines - s.changed_lines) as nat).len(),
            decimal((s.total_files - s.changed_files) as nat).len(),
        ),
    )
}

/// One line of the summary.
pub open spec fn summary_line(head: Seq<char>, lines: nat, files: nat, width: nat) -> Seq<char> {
    head + pad_left(decimal(lines), width) + " line(s), "@ + pad_left(decimal(files), width)
        + " file(s)"@
}

/// Writes one line of the summary.
fn write_summary_line(head: &str, lines: usize, files: usize, width: usize) -> (s: String)
    ensures
        s@ == summary_line(head@, lines as nat, files as nat, width as nat),
{
    let mut out: Vec<char> = Vec::new();
    append_str(&mut out, head);
    let mut number: Vec<char> = Vec::new();
    append_decimal(&mut number, lines);
    assert(number@ =~= decimal(lines as nat));
    append_padded(&mut out, number.as_slice(), width);
    append_str(&mut out, " line(s), ");
    let mut count: Vec<char> = Vec::new();
    append_decimal(&mut count, files);
    assert(count@ =~= decimal(files as nat));
    append_padded(&mut out, count.as_slice(), width);
    append_str(&mut out, " file(s)");
    assert(out@ =~= summary_line(head@, lines as nat, files as nat, width as nat));
    string_of(out.as_slice())
}

/// The two lines of the summary: the changed lines and files, then the
/// unchanged ones, all counts right-aligned to one width.
pub fn summary_lines(s: &Summary) -> (lines: (String, String))
    requires
        s.changed_lines <= s.total_lines,
        s.changed_files <= s.total_files,
    ensures
        lines.0@ == summary_line(
            "  Changed: "@,
            s.changed_lines as nat,
            s.changed_files as nat,
            summary_width(*s),
        ),
        lines.1@ == summary_line(
            "Unchanged: "@,
            (s.total_lines - s.changed_lines) as nat,
            (s.total_files - s.changed_files) as nat,
            summary_width(*s),
        ),
{
    let unchanged_lines: usize = s.total_lines - s.changed_lines;
    let unchanged_files: usize = s.total_files - s.changed_files;
    let mut width: usize = digit_count(s.changed_lines);
    let w1: usize = digit_count(s.changed_files);
    if w1 > width {
        width = w1;
    }
    let mut other: usize = digit_count(unchanged_lines);
    let w3: usize = digit_count(unchanged_files);
    if w3 > other {
        other = w3;
    }
    if other > width {
        width = other;
    }
    (
        write_summary_line("  Changed: ", s.changed_lines, s.changed_files, width),
        write_summary_line("Unchanged: ", unchanged_lines, unchanged_files, width),
    )
}

} // verus!

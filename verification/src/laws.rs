//! What holds of the library as a whole, proved from the definitions of its
//! parts.

use crate::alias::{alias_lt, is_token, is_upper, lemma_nth_letters, lemma_nth_strictly_increasing};
use crate::buffer::{buffer_lines, data_lines, data_text, glyph_at, header_lines, legend_head, legend_lines, legend_text, number_width, render_text, width_upto, ALIAS_WIDTH};
use crate::parser::{decide, parse_lines, parse_step, parse_text, DecisionView, OutcomeView, PlanView};
use crate::reconcile::{changed_upto, conflicts_upto, line_at, merged_upto, pending_upto, rebuilt_text, status_of, wanted_text, LineStatus};
use crate::registry::{index_of, registered, registry_wf, snapshot_lines, MatchLineView, RecordView};
use crate::scan::{data_line, glyph_count, is_glyph, lemma_span, scan, CharClass, DataLine, Scan};
use crate::text::{decimal, decimal_value, is_blank, is_digit, is_space, lemma_decimal, lemma_first_newline, lemma_split_lines_no_newline, no_newline, pad_left, spaces, split_lines, strip_cr, unlines};
use vstd::prelude::*;

verus! {

// ---------------------------------------------------------------------------
// Joined lines are dropped
// ---------------------------------------------------------------------------

/// A line that holds more than one marker glyph is dropped entirely: reading
/// it leaves the plan as it was, intents and count of recognized lines alike.
pub proof fn law_corrupt_line_is_dropped(reg: Seq<RecordView>, acc: PlanView, line: Seq<char>)
    requires
        glyph_count(line) > 1,
    ensures
        parse_step(reg, acc, line) == acc,
{
}

/// A buffer with such a line anywhere in it gives the plan of the buffer
/// without that line.
pub proof fn law_corrupt_line_anywhere(reg: Seq<RecordView>, lines: Seq<Seq<char>>, i: int)
    requires
        0 <= i < lines.len(),
        glyph_count(lines[i]) > 1,
    ensures
        parse_lines(reg, lines) == parse_lines(reg, lines.remove(i)),
    decreases lines.len(),
{
    if i == lines.len() - 1 {
        assert(lines.remove(i) =~= lines.drop_last());
        law_corrupt_line_is_dropped(reg, parse_lines(reg, lines.drop_last()), lines.last());
    } else {
        law_corrupt_line_anywhere(reg, lines.drop_last(), i);
        assert(lines.remove(i).drop_last() =~= lines.drop_last().remove(i));
        assert(lines.remove(i).last() == lines.last());
    }
}

// ---------------------------------------------------------------------------
// Deletion
// ---------------------------------------------------------------------------

/// A data line that names a line of a tracked file and whose content is blank
/// asks for the deletion of that line.
pub proof fn law_blank_content_asks_for_deletion(reg: Seq<RecordView>, d: DataLine)
    requires
        registered(reg, d.alias),
        1 <= d.line_number <= snapshot_lines(reg, index_of(reg, d.alias)).len(),
        is_blank(d.content),
    ensures
        decide(reg, d) == DecisionView::Edit(OutcomeView::Delete),
{
}

/// Intents for later lines have no part in the merge of the earlier ones.
proof fn lemma_merged_ignores_later(
    current: Seq<Seq<char>>,
    original: Seq<Seq<char>>,
    edits: Map<nat, OutcomeView>,
    k: nat,
    j: nat,
)
    requires
        j < k,
    ensures
        merged_upto(current, original, edits, j) == merged_upto(
            current,
            original,
            edits.remove(k),
            j,
        ),
    decreases j,
{
    if j > 0 {
        lemma_merged_ignores_later(current, original, edits, k, (j - 1) as nat);
        assert(edits.remove(k).contains_key(j) == edits.contains_key(j));
        if edits.contains_key(j) {
            assert(edits.remove(k)[j] == edits[j]);
        }
    }
}

/// A pending deletion of line `k` removes that line, moves the following lines
/// up by one and touches nothing else: the merged lines are those of the merge
/// without this intent, less the one line that stood for line `k`.
pub proof fn law_deletion_removes_one_line(
    current: Seq<Seq<char>>,
    original: Seq<Seq<char>>,
    edits: Map<nat, OutcomeView>,
    k: nat,
    n: nat,
)
    requires
        1 <= k <= n <= current.len(),
        edits.contains_key(k),
        edits[k] == OutcomeView::Delete,
        status_of(current, original, edits, k) == LineStatus::Pending,
    ensures
        merged_upto(current, original, edits, n) == merged_upto(
            current,
            original,
            edits.remove(k),
            n,
        ).remove(merged_upto(current, original, edits, (k - 1) as nat).len() as int),
        merged_upto(current, original, edits.remove(k), n)[merged_upto(
            current,
            original,
            edits,
            (k - 1) as nat,
        ).len() as int] == current[k - 1],
        merged_upto(current, original, edits, (k - 1) as nat).len() < merged_upto(
            current,
            original,
            edits.remove(k),
            n,
        ).len(),
    decreases n,
{
    let rest = edits.remove(k);
    let head = merged_upto(current, original, edits, (k - 1) as nat);
    let p = head.len() as int;
    lemma_merged_ignores_later(current, original, edits, k, (k - 1) as nat);
    if n == k {
        assert(merged_upto(current, original, rest, k) == head.push(current[k - 1]));
        assert(head.push(current[k - 1]).remove(p) =~= head);
    } else {
        law_deletion_removes_one_line(current, original, edits, k, (n - 1) as nat);
        let with = merged_upto(current, original, edits, (n - 1) as nat);
        let without = merged_upto(current, original, rest, (n - 1) as nat);
        assert(rest.contains_key(n) == edits.contains_key(n));
        if edits.contains_key(n) {
            assert(rest[n] == edits[n]);
        }
        assert(status_of(current, original, rest, n) == status_of(current, original, edits, n));
        assert forall|x: Seq<char>| without.push(x).remove(p) =~= without.remove(p).push(x) by {}
    }
}

/// With the deletion of line `k` as the only intent, on a file that still
/// reads as in the snapshot at that line, the merged lines are the current
/// lines without line `k`.
pub proof fn law_single_deletion(current: Seq<Seq<char>>, original: Seq<Seq<char>>, k: nat)
    requires
        1 <= k <= current.len(),
        current[k - 1] == line_at(original, k),
        current[k - 1].len() > 0,
    ensures
        merged_upto(
            current,
            original,
            Map::<nat, OutcomeView>::empty().insert(k, OutcomeView::Delete),
            current.len(),
        ) == current.remove(k - 1),
{
    let edits = Map::<nat, OutcomeView>::empty().insert(k, OutcomeView::Delete);
    let none = edits.remove(k);
    assert(none =~= Map::<nat, OutcomeView>::empty());
    assert(current[k - 1] != Seq::<char>::empty());
    law_deletion_removes_one_line(current, original, edits, k, current.len());
    lemma_merged_ignores_later(current, original, edits, k, (k - 1) as nat);
    lemma_merge_of_nothing(current, original, current.len());
    lemma_merge_of_nothing(current, original, (k - 1) as nat);
    assert(current.take(k - 1).len() == k - 1);
    assert(current.take(current.len() as int) =~= current);
}

/// Without intents the merge changes nothing.
pub proof fn lemma_merge_of_nothing(current: Seq<Seq<char>>, original: Seq<Seq<char>>, n: nat)
    requires
        n <= current.len(),
    ensures
        merged_upto(current, original, Map::<nat, OutcomeView>::empty(), n) == current.take(
            n as int,
        ),
    decreases n,
{
    if n > 0 {
        lemma_merge_of_nothing(current, original, (n - 1) as nat);
        assert(current.take(n as int) =~= current.take(n - 1).push(current[n - 1]));
    } else {
        assert(current.take(0) =~= Seq::<Seq<char>>::empty());
    }
}

// ---------------------------------------------------------------------------
// What a merge leaves behind
// ---------------------------------------------------------------------------

/// A file whose snapshot ended in a line feed is written with a line feed at
/// its end, whatever became of its last line.
pub proof fn law_final_newline_kept(
    original: Seq<char>,
    current: Seq<char>,
    edits: Map<nat, OutcomeView>,
)
    requires
        original.len() > 0,
        original.last() == '\n',
    ensures
        rebuilt_text(original, current, edits).len() > 0,
        rebuilt_text(original, current, edits).last() == '\n',
{
}

/// The merge looks at the intents only: up to whatever line number it is
/// counted, from the last intent on the conflicts and the counts stay as they
/// are.
pub proof fn law_merge_bound(
    current: Seq<Seq<char>>,
    original: Seq<Seq<char>>,
    edits: Map<nat, OutcomeView>,
    last: nat,
    bound: nat,
)
    requires
        last <= bound,
        forall|l: nat| last < l <= bound ==> !edits.contains_key(l),
    ensures
        conflicts_upto(current, original, edits, bound) == conflicts_upto(
            current,
            original,
            edits,
            last,
        ),
        pending_upto(current, original, edits, bound) == pending_upto(
            current,
            original,
            edits,
            last,
        ),
        changed_upto(current, original, edits, bound) == changed_upto(
            current,
            original,
            edits,
            last,
        ),
    decreases bound,
{
    if bound > last {
        assert(!edits.contains_key(bound));
        law_merge_bound(current, original, edits, last, (bound - 1) as nat);
    }
}

/// Where no line conflicts, every intent is satisfied or pending.
proof fn lemma_no_conflict_at(
    current: Seq<Seq<char>>,
    original: Seq<Seq<char>>,
    edits: Map<nat, OutcomeView>,
    n: nat,
    l: nat,
)
    requires
        conflicts_upto(current, original, edits, n).len() == 0,
        1 <= l <= n,
        edits.contains_key(l),
    ensures
        status_of(current, original, edits, l) != LineStatus::Conflict,
    decreases n,
{
    if l < n {
        lemma_no_conflict_at(current, original, edits, (n - 1) as nat, l);
    }
}

/// Without deletions the merge keeps every line in its place, and puts the
/// wanted text where an intent was pending.
proof fn lemma_merged_in_place(
    current: Seq<Seq<char>>,
    original: Seq<Seq<char>>,
    edits: Map<nat, OutcomeView>,
    n: nat,
    l: nat,
)
    requires
        n <= current.len(),
        forall|k: nat| 1 <= k <= n && edits.contains_key(k) ==> #[trigger] edits[k] is Replace,
        1 <= l <= n,
    ensures
        merged_upto(current, original, edits, n).len() == n,
        merged_upto(current, original, edits, n)[l - 1] == if edits.contains_key(l) && status_of(
            current,
            original,
            edits,
            l,
        ) == LineStatus::Pending {
            wanted_text(edits[l])
        } else {
            current[l - 1]
        },
    decreases n,
{
    let before = merged_upto(current, original, edits, (n - 1) as nat);
    let all = merged_upto(current, original, edits, n);
    if n > 1 {
        let m = if l < n {
            l
        } else {
            1nat
        };
        lemma_merged_in_place(current, original, edits, (n - 1) as nat, m);
    } else {
        assert(before.len() == 0);
    }
    assert(before.len() == n - 1);
    if edits.contains_key(n) && status_of(current, original, edits, n) == LineStatus::Pending {
        assert(edits[n] is Replace);
        assert(all == before.push(wanted_text(edits[n])));
    } else {
        assert(all == before.push(current[n - 1]));
    }
    if l < n {
        assert(all[l - 1] == before[l - 1]);
    }
}

/// Where every intent is satisfied, none is pending and none conflicts.
proof fn lemma_all_satisfied(
    current: Seq<Seq<char>>,
    original: Seq<Seq<char>>,
    edits: Map<nat, OutcomeView>,
    n: nat,
)
    requires
        forall|l: nat|
            1 <= l <= n && edits.contains_key(l) ==> #[trigger] status_of(
                current,
                original,
                edits,
                l,
            ) == LineStatus::Satisfied,
    ensures
        pending_upto(current, original, edits, n) == 0,
        conflicts_upto(current, original, edits, n).len() == 0,
    decreases n,
{
    if n > 0 {
        lemma_all_satisfied(current, original, edits, (n - 1) as nat);
        if edits.contains_key(n) {
            assert(status_of(current, original, edits, n) == LineStatus::Satisfied);
        }
    }
}

/// Merging again what a merge has written changes nothing: where the intents
/// ask for replacements only and none conflicts, the merged lines satisfy
/// every intent, so that a second merge finds nothing pending and no conflict.
pub proof fn law_merge_settles(
    current: Seq<Seq<char>>,
    original: Seq<Seq<char>>,
    edits: Map<nat, OutcomeView>,
)
    requires
        conflicts_upto(current, original, edits, current.len()).len() == 0,
        forall|k: nat|
            1 <= k <= current.len() && edits.contains_key(k) ==> #[trigger] edits[k] is Replace,
    ensures
        pending_upto(
            merged_upto(current, original, edits, current.len()),
            original,
            edits,
            current.len(),
        ) == 0,
        conflicts_upto(
            merged_upto(current, original, edits, current.len()),
            original,
            edits,
            current.len(),
        ).len() == 0,
{
    let n = current.len();
    let merged = merged_upto(current, original, edits, n);
    assert forall|l: nat| 1 <= l <= n && edits.contains_key(l) implies #[trigger] status_of(
        merged,
        original,
        edits,
        l,
    ) == LineStatus::Satisfied by {
        lemma_merged_in_place(current, original, edits, n, l);
        lemma_no_conflict_at(current, original, edits, n, l);
        assert(line_at(merged, l) == merged[l - 1]);
        assert(line_at(current, l) == current[l - 1]);
    }
    lemma_all_satisfied(merged, original, edits, n);
}

// ---------------------------------------------------------------------------
// Aliases and positions
// ---------------------------------------------------------------------------

/// In a registry the aliases stand in their order: a record further down has
/// the larger alias.
pub proof fn law_aliases_follow_positions(reg: Seq<RecordView>, i: int, j: int)
    requires
        registry_wf(reg),
        0 <= i < j < reg.len(),
    ensures
        alias_lt(reg[i].alias, reg[j].alias),
{
    lemma_nth_strictly_increasing(i as nat, j as nat);
}

// ---------------------------------------------------------------------------
// Lines written and read back
// ---------------------------------------------------------------------------

/// The text of some lines starts with the first line and a line feed.
proof fn lemma_unlines_front(lines: Seq<Seq<char>>)
    requires
        lines.len() > 0,
    ensures
        unlines(lines) == lines[0] + seq!['\n'] + unlines(lines.skip(1)),
    decreases lines.len(),
{
    if lines.len() == 1 {
        assert(lines.drop_last() =~= Seq::<Seq<char>>::empty());
        assert(lines.skip(1) =~= Seq::<Seq<char>>::empty());
        assert(unlines(lines) =~= lines[0] + seq!['\n'] + unlines(lines.skip(1)));
    } else {
        lemma_unlines_front(lines.drop_last());
        assert(lines.drop_last().skip(1) =~= lines.skip(1).drop_last());
        assert(lines.skip(1).last() == lines.last());
        assert(lines.drop_last()[0] == lines[0]);
        assert(unlines(lines) =~= lines[0] + seq!['\n'] + unlines(lines.skip(1)));
    }
}

/// Lines that hold no line feed, written one after the other and read back,
/// are the same lines, each without one trailing carriage return.
pub proof fn lemma_split_unlines(lines: Seq<Seq<char>>)
    requires
        forall|i: int| 0 <= i < lines.len() ==> no_newline(#[trigger] lines[i]),
    ensures
        split_lines(unlines(lines)) == Seq::new(lines.len(), |i: int| strip_cr(lines[i])),
    decreases lines.len(),
{
    let read = Seq::new(lines.len(), |i: int| strip_cr(lines[i]));
    if lines.len() == 0 {
        assert(split_lines(unlines(lines)) =~= read);
    } else {
        lemma_unlines_front(lines);
        let text = unlines(lines);
        let head = lines[0];
        let tail = lines.skip(1);
        assert(no_newline(head));
        assert forall|j: int| 0 <= j < head.len() implies #[trigger] text[j] != '\n' by {
            assert(text[j] == head[j]);
        }
        assert(text[head.len() as int] == '\n');
        lemma_first_newline(text, head.len() as int);
        assert(text.take(head.len() as int) =~= head);
        assert(text.skip(head.len() as int + 1) =~= unlines(tail));
        assert forall|i: int| 0 <= i < tail.len() implies no_newline(#[trigger] tail[i]) by {
            assert(tail[i] == lines[i + 1]);
        }
        lemma_split_unlines(tail);
        let read_tail = Seq::new(tail.len(), |i: int| strip_cr(tail[i]));
        assert(seq![strip_cr(head)] + read_tail =~= read);
    }
}

// ---------------------------------------------------------------------------
// Lines that leave no intent
// ---------------------------------------------------------------------------

/// Whether reading `line` leaves the intents as they were.
pub open spec fn leaves_no_intent(reg: Seq<RecordView>, line: Seq<char>) -> bool {
    match scan(line) {
        Scan::Data(d) => !(decide(reg, d) is Edit),
        _ => true,
    }
}

/// Lines that each leave no intent leave none together.
pub proof fn lemma_no_intents(reg: Seq<RecordView>, lines: Seq<Seq<char>>)
    requires
        forall|i: int| 0 <= i < lines.len() ==> leaves_no_intent(reg, #[trigger] lines[i]),
    ensures
        parse_lines(reg, lines).intents == Map::<(Seq<char>, nat), OutcomeView>::empty(),
    decreases lines.len(),
{
    if lines.len() > 0 {
        let before = lines.drop_last();
        assert forall|i: int| 0 <= i < before.len() implies leaves_no_intent(
            reg,
            #[trigger] before[i],
        ) by {
            assert(before[i] == lines[i]);
        }
        lemma_no_intents(reg, before);
        assert(leaves_no_intent(reg, lines[lines.len() - 1]));
    }
}

// ---------------------------------------------------------------------------
// The buffer, written and read back unmodified
// ---------------------------------------------------------------------------

/// A match line is faithful to the registry when it names a tracked file and
/// one of its snapshot's lines, and carries the text of that line.
pub open spec fn faithful(reg: Seq<RecordView>, m: MatchLineView) -> bool {
    &&& registered(reg, m.alias)
    &&& 1 <= m.line_number <= snapshot_lines(reg, index_of(reg, m.alias)).len()
    &&& m.content == snapshot_lines(reg, index_of(reg, m.alias))[m.line_number - 1]
}

/// A line that can stand in the buffer as one line and that, read back, leaves
/// no intent.
pub open spec fn quiet_line(reg: Seq<RecordView>, line: Seq<char>) -> bool {
    no_newline(line) && leaves_no_intent(reg, strip_cr(line))
}

/// A comment line is quiet.
proof fn lemma_comment_quiet(reg: Seq<RecordView>, line: Seq<char>)
    requires
        line.len() >= 1,
        line[0] == '#',
        no_newline(line),
    ensures
        quiet_line(reg, line),
{
    let read = strip_cr(line);
    if line.len() == 1 {
        assert(line.last() == line[0]);
    } else {
        assert(read[0] == line[0]);
    }
}

/// The empty line is quiet.
proof fn lemma_empty_quiet(reg: Seq<RecordView>)
    ensures
        quiet_line(reg, Seq::<char>::empty()),
{
    assert(is_blank(Seq::<char>::empty()));
}

/// The lines of the header are quiet.
proof fn lemma_header_quiet(reg: Seq<RecordView>, label: Seq<char>)
    requires
        no_newline(label),
    ensures
        header_lines(label).len() == 9,
        forall|i: int| 0 <= i < 9 ==> quiet_line(reg, #[trigger] header_lines(label)[i]),
{
    reveal_strlit("# okapi – bulk editing buffer");
    reveal_strlit("# ");
    reveal_strlit("#");
    reveal_strlit("# - Save and close to apply changes.");
    reveal_strlit("# - Unchanged lines and those starting with '#' are ignored.");
    reveal_strlit("# - Delete everything after the shade block (▓) to remove a line.");
    reveal_strlit("# --- Begin editable lines ---");
    let h = header_lines(label);
    lemma_comment_quiet(reg, h[0]);
    assert forall|j: int| 0 <= j < h[1].len() implies #[trigger] h[1][j] != '\n' by {
        if j >= 2 {
            assert(h[1][j] == label[j - 2]);
        }
    }
    lemma_comment_quiet(reg, h[1]);
    lemma_comment_quiet(reg, h[2]);
    lemma_comment_quiet(reg, h[3]);
    lemma_comment_quiet(reg, h[4]);
    lemma_comment_quiet(reg, h[5]);
    lemma_comment_quiet(reg, h[6]);
    lemma_comment_quiet(reg, h[7]);
    lemma_empty_quiet(reg);
}

/// The two lines in front of the legend are quiet.
proof fn lemma_legend_head_quiet(reg: Seq<RecordView>)
    ensures
        legend_head().len() == 2,
        forall|i: int| 0 <= i < 2 ==> quiet_line(reg, #[trigger] legend_head()[i]),
{
    reveal_strlit("# --- File Aliases ---");
    lemma_empty_quiet(reg);
    lemma_comment_quiet(reg, legend_head()[1]);
}

/// A line of the legend is quiet.
proof fn lemma_legend_quiet(reg: Seq<RecordView>, i: int)
    requires
        registry_wf(reg),
        0 <= i < reg.len(),
        no_newline(reg[i].absolute_path),
    ensures
        quiet_line(reg, legend_text(reg[i])),
{
    reveal_strlit("# ");
    reveal_strlit(" = ");
    lemma_nth_letters(i as nat);
    let alias = reg[i].alias;
    let padded = pad_left(alias, ALIAS_WIDTH as nat);
    let path = reg[i].absolute_path;
    let line = legend_text(reg[i]);
    assert(padded.len() == 3);
    assert forall|j: int| 0 <= j < padded.len() implies #[trigger] padded[j] != '\n' by {
        if j >= 3 - alias.len() {
            assert(is_upper(alias[j - (3 - alias.len())]));
        }
    }
    assert forall|j: int| 0 <= j < line.len() implies #[trigger] line[j] != '\n' by {
        if j < 2 {
        } else if j < 5 {
            assert(line[j] == padded[j - 2]);
        } else if j < 8 {
            assert(line[j] == " = "@[j - 5]);
        } else {
            assert(line[j] == path[j - 8]);
        }
    }
    assert(line[0] == '#');
    lemma_comment_quiet(reg, line);
}

/// A line made of leading spaces, letters, spaces, digits, a space, a glyph, a
/// space and a content is the data line with these letters, this number and
/// this content.
proof fn lemma_composed_data_line(
    lead: nat,
    alias: Seq<char>,
    gap: nat,
    digits: Seq<char>,
    glyph: char,
    content: Seq<char>,
)
    requires
        alias.len() >= 1,
        forall|i: int| 0 <= i < alias.len() ==> is_upper(#[trigger] alias[i]),
        gap >= 1,
        digits.len() >= 1,
        forall|i: int| 0 <= i < digits.len() ==> is_digit(#[trigger] digits[i]),
        is_glyph(glyph),
        decimal_value(digits) <= usize::MAX,
    ensures
        data_line(composed(lead, alias, gap, digits, glyph, content)) == Some(
            DataLine { alias, line_number: decimal_value(digits), content },
        ),
{
    let s1 = spaces(lead);
    let s2 = s1 + alias;
    let s3 = s2 + spaces(gap);
    let s4 = s3 + digits;
    let s5 = s4 + seq![' ', glyph, ' '];
    let line = s5 + content;
    let at_alias = lead as int;
    let after_alias = at_alias + alias.len();
    let at_digits = after_alias + gap;
    let after_digits = at_digits + digits.len();
    let g = after_digits + 1;
    assert forall|k: int| 0 <= k < at_alias implies in_space(#[trigger] line[k]) by {
        assert(line[k] == s1[k]);
    }
    assert forall|k: int| at_alias <= k < after_alias implies #[trigger] line[k] == alias[k - at_alias] by {
        assert(line[k] == s2[k]);
    }
    assert forall|k: int| after_alias <= k < at_digits implies in_space(#[trigger] line[k]) by {
        assert(line[k] == s3[k]);
        assert(s3[k] == spaces(gap)[k - after_alias]);
    }
    assert forall|k: int| at_digits <= k < after_digits implies #[trigger] line[k] == digits[k - at_digits] by {
        assert(line[k] == s4[k]);
    }
    assert(line[after_digits] == ' ') by {
        assert(line[after_digits] == s5[after_digits]);
        assert(s5[after_digits] == seq![' ', glyph, ' '][0]);
    }
    assert(line[g] == glyph) by {
        assert(line[g] == s5[g]);
        assert(s5[g] == seq![' ', glyph, ' '][1]);
    }
    assert(line[g + 1] == ' ') by {
        assert(line[g + 1] == s5[g + 1]);
        assert(s5[g + 1] == seq![' ', glyph, ' '][2]);
    }
    assert(is_upper(alias[0]));
    assert(is_digit(digits[0]));
    assert(line[at_alias] == alias[0]);
    assert(line[at_digits] == digits[0]);
    assert forall|k: int| 0 <= k < at_alias implies crate::scan::in_class(
        #[trigger] line[k],
        CharClass::Space,
    ) by {
        assert(in_space(line[k]));
    }
    lemma_span(line, 0, at_alias, CharClass::Space);
    assert forall|k: int| at_alias <= k < after_alias implies crate::scan::in_class(
        #[trigger] line[k],
        CharClass::Upper,
    ) by {
        assert(is_upper(alias[k - at_alias]));
    }
    lemma_span(line, at_alias, after_alias, CharClass::Upper);
    assert forall|k: int| after_alias <= k < at_digits implies crate::scan::in_class(
        #[trigger] line[k],
        CharClass::Space,
    ) by {
        assert(in_space(line[k]));
    }
    lemma_span(line, after_alias, at_digits, CharClass::Space);
    assert forall|k: int| at_digits <= k < after_digits implies crate::scan::in_class(
        #[trigger] line[k],
        CharClass::Digit,
    ) by {
        assert(is_digit(digits[k - at_digits]));
    }
    lemma_span(line, at_digits, after_digits, CharClass::Digit);
    assert forall|k: int| after_digits <= k < g implies crate::scan::in_class(
        #[trigger] line[k],
        CharClass::Space,
    ) by {}
    lemma_span(line, after_digits, g, CharClass::Space);
    assert(line.subrange(at_alias, after_alias) =~= alias);
    assert(line.subrange(at_digits, after_digits) =~= digits);
    assert(line.skip(g + 2) =~= content);
    assert(g + 1 < line.len());
}

/// Whether `c` is the plain space, which is whitespace.
spec fn in_space(c: char) -> bool {
    c == ' ' && is_space(c)
}

/// The number column is wide enough for every line number.
proof fn lemma_width_covers(matches: Seq<MatchLineView>, k: nat, j: int)
    requires
        0 <= j < k <= matches.len(),
    ensures
        decimal(matches[j].line_number).len() <= width_upto(matches, k),
    decreases k,
{
    if j < k - 1 {
        lemma_width_covers(matches, (k - 1) as nat, j);
    }
}

/// The parts of a data line, put together with the paddings written out.
spec fn composed(
    lead: nat,
    alias: Seq<char>,
    gap: nat,
    digits: Seq<char>,
    glyph: char,
    content: Seq<char>,
) -> Seq<char> {
    spaces(lead) + alias + spaces(gap) + digits + seq![' ', glyph, ' '] + content
}

/// A data line is its parts put together.
proof fn lemma_data_text_shape(m: MatchLineView, width: nat, glyph: char)
    requires
        1 <= m.alias.len() <= 3,
        1 <= decimal(m.line_number).len() <= width,
    ensures
        data_text(m, width, glyph) == composed(
            (3 - m.alias.len()) as nat,
            m.alias,
            (1 + width - decimal(m.line_number).len()) as nat,
            decimal(m.line_number),
            glyph,
            m.content,
        ),
{
    let alias = m.alias;
    let digits = decimal(m.line_number);
    let lead = (3 - alias.len()) as nat;
    let gap = (1 + width - digits.len()) as nat;
    let a = pad_left(alias, ALIAS_WIDTH as nat);
    let b = pad_left(digits, width);
    assert(a =~= spaces(lead) + alias);
    assert(seq![' '] + b =~= spaces(gap) + digits);
    assert(a + seq![' '] + b =~= spaces(lead) + alias + spaces(gap) + digits);
}

/// Parts without line feeds make a line without line feeds.
proof fn lemma_composed_no_newline(
    lead: nat,
    alias: Seq<char>,
    gap: nat,
    digits: Seq<char>,
    glyph: char,
    content: Seq<char>,
)
    requires
        forall|i: int| 0 <= i < alias.len() ==> is_upper(#[trigger] alias[i]),
        forall|i: int| 0 <= i < digits.len() ==> is_digit(#[trigger] digits[i]),
        is_glyph(glyph),
        no_newline(content),
    ensures
        no_newline(composed(lead, alias, gap, digits, glyph, content)),
{
    let a = spaces(lead) + alias;
    let b = a + spaces(gap);
    let c = b + digits;
    let d = c + seq![' ', glyph, ' '];
    let line = d + content;
    assert(no_newline(a)) by {
        assert forall|j: int| 0 <= j < a.len() implies #[trigger] a[j] != '\n' by {
            if j >= lead {
                assert(is_upper(alias[j - lead]));
            }
        }
    }
    assert(no_newline(b)) by {
        assert forall|j: int| 0 <= j < b.len() implies #[trigger] b[j] != '\n' by {
            if j < a.len() {
                assert(b[j] == a[j]);
            }
        }
    }
    assert(no_newline(c)) by {
        assert forall|j: int| 0 <= j < c.len() implies #[trigger] c[j] != '\n' by {
            if j < b.len() {
                assert(c[j] == b[j]);
            } else {
                assert(is_digit(digits[j - b.len()]));
            }
        }
    }
    assert(no_newline(d)) by {
        assert forall|j: int| 0 <= j < d.len() implies #[trigger] d[j] != '\n' by {
            if j < c.len() {
                assert(d[j] == c[j]);
            } else {
                assert(d[j] == seq![' ', glyph, ' '][j - c.len()]);
            }
        }
    }
    assert forall|j: int| 0 <= j < line.len() implies #[trigger] line[j] != '\n' by {
        if j < d.len() {
            assert(line[j] == d[j]);
        } else {
            assert(line[j] == content[j - d.len()]);
        }
    }
}

/// The data line of a faithful match line with a content that is not blank and
/// does not end in a carriage return is quiet.
proof fn lemma_data_line_quiet(reg: Seq<RecordView>, m: MatchLineView, width: nat, glyph: char)
    requires
        registry_wf(reg),
        faithful(reg, m),
        !is_blank(m.content),
        m.content.last() != '\r',
        m.line_number <= usize::MAX,
        decimal(m.line_number).len() <= width,
        is_glyph(glyph),
    ensures
        quiet_line(reg, data_text(m, width, glyph)),
{
    let i = index_of(reg, m.alias);
    lemma_nth_letters(i as nat);
    lemma_decimal(m.line_number);
    lemma_split_lines_no_newline(reg[i].content);
    let alias = m.alias;
    let digits = decimal(m.line_number);
    let content = m.content;
    assert(is_token(alias));
    assert(content.len() > 0) by {
        if content.len() == 0 {
            assert(is_blank(content));
        }
    }
    assert(no_newline(content));
    let lead = (3 - alias.len()) as nat;
    let gap = (1 + width - digits.len()) as nat;
    let line = data_text(m, width, glyph);
    lemma_data_text_shape(m, width, glyph);
    lemma_composed_data_line(lead, alias, gap, digits, glyph, content);
    lemma_composed_no_newline(lead, alias, gap, digits, glyph, content);
    assert(line == composed(lead, alias, gap, digits, glyph, content));
    assert(line.last() == content.last());
    assert(strip_cr(line) == line);
    let d = DataLine { alias, line_number: m.line_number, content };
    assert(data_line(line) == Some(d));
    assert(decide(reg, d) == DecisionView::Unchanged);
}

/// Rendering a buffer and parsing it as it is gives no edit intent for any
/// file.
///
/// This holds for match lines that are faithful to the registry, as they are
/// when they were built from it, and whose content is not blank and does not
/// end in a carriage return; and for a label and absolute paths that hold no
/// line feed. Read back, a blank content asks for a deletion, a trailing
/// carriage return is not part of the line, and a line feed starts a new line.
pub proof fn law_unmodified_buffer_has_no_intents(
    label: Seq<char>,
    matches: Seq<MatchLineView>,
    reg: Seq<RecordView>,
)
    requires
        registry_wf(reg),
        no_newline(label),
        forall|i: int| 0 <= i < reg.len() ==> no_newline(#[trigger] reg[i].absolute_path),
        forall|k: int|
            0 <= k < matches.len() ==> {
                &&& faithful(reg, #[trigger] matches[k])
                &&& !is_blank(matches[k].content)
                &&& matches[k].content.last() != '\r'
                &&& matches[k].line_number <= usize::MAX
            },
    ensures
        parse_text(reg, render_text(label, matches, reg)).intents == Map::<
            (Seq<char>, nat),
            OutcomeView,
        >::empty(),
{
    let head = header_lines(label);
    let data = data_lines(matches);
    let mid = legend_head();
    let legend = legend_lines(reg);
    let lines = buffer_lines(label, matches, reg);
    lemma_header_quiet(reg, label);
    lemma_legend_head_quiet(reg);
    assert forall|i: int| 0 <= i < lines.len() implies quiet_line(reg, #[trigger] lines[i]) by {
        if i < 9 {
            assert(lines[i] == head[i]);
        } else if i < 9 + data.len() {
            let k = i - 9;
            assert(lines[i] == data[k]);
            lemma_width_covers(matches, matches.len(), k);
            assert(faithful(reg, matches[k]));
            lemma_data_line_quiet(reg, matches[k], number_width(matches), glyph_at(matches, k));
        } else if i < 9 + data.len() + 2 {
            assert(lines[i] == mid[i - 9 - data.len()]);
        } else {
            let j = i - 9 - data.len() - 2;
            assert(lines[i] == legend[j]);
            assert(no_newline(reg[j].absolute_path));
            lemma_legend_quiet(reg, j);
        }
    }
    lemma_split_unlines(lines);
    let read = Seq::new(lines.len(), |i: int| strip_cr(lines[i]));
    assert forall|i: int| 0 <= i < read.len() implies leaves_no_intent(reg, #[trigger] read[i]) by {
        assert(quiet_line(reg, lines[i]));
    }
    lemma_no_intents(reg, read);
}

} // verus!

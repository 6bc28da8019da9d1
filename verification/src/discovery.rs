//! Reading what the suppliers of match locations hand over: the entries of a
//! list of `path:line` requests, the lines of a search tool's output, and a
//! filter on the column of a match.

use crate::paths::{lemma_path_total, lemma_path_transitive, path_at_most, path_le, path_order_laws};
use crate::registry::{copy_file, first_display, match_lines_view, occurs, registered_all, FileRegistry, LoadedFile, MatchLine, MatchLineView, RecordView};
use crate::scan::{parse_number, span, span_end, sub_chars, CharClass};
use crate::text::{append_chars, append_str, chars_of, decimal_value, is_digit, is_space, is_space_char, string_of};
use vstd::prelude::*;

verus! {

// ---------------------------------------------------------------------------
// Pieces of a line
// ---------------------------------------------------------------------------

/// `s` without trailing whitespace.
pub open spec fn trim_end(s: Seq<char>) -> Seq<char>
    decreases s.len(),
{
    if s.len() > 0 && is_space(s.last()) {
        trim_end(s.drop_last())
    } else {
        s
    }
}

/// `s` without leading and trailing whitespace.
pub open spec fn trim(s: Seq<char>) -> Seq<char> {
    trim_end(s.skip(span_end(s, 0, CharClass::Space)))
}

/// The position of the first `c` at or after `from`, or `s.len()` if there is
/// none.
pub open spec fn find_from(s: Seq<char>, c: char, from: int) -> int
    decreases s.len() - from,
{
    if 0 <= from < s.len() && s[from] != c {
        find_from(s, c, from + 1)
    } else if from < s.len() {
        from
    } else {
        s.len() as int
    }
}

/// The position of the last `c`, or -1 if there is none.
pub open spec fn find_last(s: Seq<char>, c: char) -> int
    decreases s.len(),
{
    if s.len() == 0 {
        -1
    } else if s.last() == c {
        s.len() - 1
    } else {
        find_last(s.drop_last(), c)
    }
}

/// `s` without one leading plus sign.
pub open spec fn after_sign(s: Seq<char>) -> Seq<char> {
    if s.len() > 0 && s[0] == '+' {
        s.skip(1)
    } else {
        s
    }
}

/// The number that a text denotes: decimal digits, at least one, after an
/// optional plus sign, if the number fits a machine word.
pub open spec fn unsigned_value(s: Seq<char>) -> Option<usize> {
    let digits = after_sign(s);
    if digits.len() > 0 && (forall|i: int| 0 <= i < digits.len() ==> is_digit(#[trigger] digits[i]))
        && decimal_value(digits) <= usize::MAX {
        Some(decimal_value(digits) as usize)
    } else {
        None
    }
}

/// The text at the first `c` at or after `from` is found by passing over what
/// is not `c`.
proof fn lemma_find_from(s: Seq<char>, c: char, from: int, to: int)
    requires
        0 <= from <= to <= s.len(),
        forall|k: int| from <= k < to ==> #[trigger] s[k] != c,
        to == s.len() || s[to] == c,
    ensures
        find_from(s, c, from) == to,
    decreases to - from,
{
    if from < to {
        assert(s[from] != c);
        lemma_find_from(s, c, from + 1, to);
    }
}

/// The last `c` is found by passing over what is not `c` from the end.
proof fn lemma_find_last(s: Seq<char>, c: char, at: int)
    requires
        -1 <= at < s.len(),
        forall|k: int| at < k < s.len() ==> #[trigger] s[k] != c,
        at >= 0 ==> s[at] == c,
    ensures
        find_last(s, c) == at,
    decreases s.len(),
{
    if s.len() > 0 && at < s.len() - 1 {
        assert(s[s.len() - 1] != c);
        let t = s.drop_last();
        assert forall|k: int| at < k < t.len() implies #[trigger] t[k] != c by {
            assert(t[k] == s[k]);
        }
        lemma_find_last(t, c, at);
    }
}

/// `line` without leading and trailing whitespace.
pub fn trimmed(line: &[char]) -> (v: Vec<char>)
    ensures
        v@ == trim(line@),
{
    let start: usize = span(line, 0, CharClass::Space);
    let mut end: usize = line.len();
    assert(line@.skip(start as int) =~= line@.subrange(start as int, end as int));
    while end > start && is_space_char(line[end - 1])
        invariant
            start <= end <= line@.len(),
            trim(line@) == trim_end(line@.subrange(start as int, end as int)),
        decreases end,
    {
        let ghost whole = line@.subrange(start as int, end as int);
        assert(whole.last() == line@[end - 1]);
        assert(whole.drop_last() =~= line@.subrange(start as int, end - 1));
        end -= 1;
    }
    proof {
        let rest = line@.subrange(start as int, end as int);
        if end > start {
            assert(rest.last() == line@[end - 1]);
        }
    }
    sub_chars(line, start, end)
}

/// The position of the first `c` at or after `from`, or the length of the
/// line.
pub fn position_from(line: &[char], c: char, from: usize) -> (at: usize)
    requires
        from <= line@.len(),
    ensures
        at == find_from(line@, c, from as int),
        from <= at <= line@.len(),
        at < line@.len() ==> line@[at as int] == c,
{
    let mut i: usize = from;
    while i < line.len() && line[i] != c
        invariant
            from <= i <= line@.len(),
            forall|k: int| from <= k < i ==> #[trigger] line@[k] != c,
        decreases line.len() - i,
    {
        i += 1;
    }
    proof {
        lemma_find_from(line@, c, from as int, i as int);
    }
    i
}

/// The position of the last `c`, if there is one.
pub fn last_position(line: &[char], c: char) -> (at: Option<usize>)
    ensures
        at is None <==> find_last(line@, c) == -1,
        at matches Some(i) ==> i == find_last(line@, c) && i < line@.len(),
{
    let mut i: usize = line.len();
    while i > 0 && line[i - 1] != c
        invariant
            i <= line@.len(),
            forall|k: int| i <= k < line@.len() ==> #[trigger] line@[k] != c,
        decreases i,
    {
        i -= 1;
    }
    proof {
        lemma_find_last(line@, c, i - 1);
    }
    if i == 0 {
        None
    } else {
        Some(i - 1)
    }
}

/// Reads a number: digits after an optional plus sign.
pub fn parse_unsigned(text: &[char]) -> (r: Option<usize>)
    ensures
        r == unsigned_value(text@),
{
    let start: usize = if text.len() > 0 && text[0] == '+' {
        1
    } else {
        0
    };
    let digits = sub_chars(text, start, text.len());
    assert(digits@ =~= after_sign(text@));
    if digits.len() == 0 {
        return None;
    }
    let mut i: usize = 0;
    while i < digits.len()
        invariant
            i <= digits@.len(),
            digits@ == after_sign(text@),
            forall|k: int| 0 <= k < i ==> is_digit(#[trigger] digits@[k]),
        decreases digits.len() - i,
    {
        let c: char = digits[i];
        if !(c >= '0' && c <= '9') {
            assert(!is_digit(after_sign(text@)[i as int]));
            return None;
        }
        i += 1;
    }
    parse_number(digits.as_slice())
}

// ---------------------------------------------------------------------------
// The list of requests
// ---------------------------------------------------------------------------

/// What a line of a request list is.
#[derive(Clone, Debug, PartialEq, Eq)]
pub enum ListLine {
    /// An empty line or a comment.
    Skip,
    /// A request for a line of a file.
    Request { path: String, line_number: usize },
    /// The line has no colon between path and number.
    MissingColon,
    /// What follows the last colon is no number.
    BadNumber,
}

/// What a `ListLine` stands for.
pub enum ListLineView {
    Skip,
    Request { path: Seq<char>, line_number: nat },
    MissingColon,
    BadNumber,
}

impl View for ListLine {
    type V = ListLineView;

    open spec fn view(&self) -> ListLineView {
        match self {
            ListLine::Skip => ListLineView::Skip,
            ListLine::Request { path, line_number } => ListLineView::Request {
                path: path@,
                line_number: *line_number as nat,
            },
            ListLine::MissingColon => ListLineView::MissingColon,
            ListLine::BadNumber => ListLineView::BadNumber,
        }
    }
}

/// What the line of a request list says. Whitespace around the line does not
/// count. A line that is empty or starts with `#` is skipped. Every other line
/// is a path, a colon and a line number; the path is all that stands before the
/// last colon.
pub open spec fn list_line(line: Seq<char>) -> ListLineView {
    let t = trim(line);
    if t.len() == 0 || t[0] == '#' {
        ListLineView::Skip
    } else {
        let colon = find_last(t, ':');
        if colon < 0 {
            ListLineView::MissingColon
        } else {
            match unsigned_value(t.skip(colon + 1)) {
                Some(n) => ListLineView::Request { path: t.take(colon), line_number: n as nat },
                None => ListLineView::BadNumber,
            }
        }
    }
}

/// Reads one line of a request list.
pub fn parse_list_line(line: &str) -> (r: ListLine)
    ensures
        r@ == list_line(line@),
{
    let chars = chars_of(line);
    let t = trimmed(chars.as_slice());
    if t.len() == 0 || t[0] == '#' {
        return ListLine::Skip;
    }
    match last_position(t.as_slice(), ':') {
        None => ListLine::MissingColon,
        Some(colon) => {
            let number = sub_chars(t.as_slice(), colon + 1, t.len());
            assert(number@ =~= t@.skip(colon + 1));
            match parse_unsigned(number.as_slice()) {
                None => ListLine::BadNumber,
                Some(line_number) => {
                    let path = sub_chars(t.as_slice(), 0, colon);
                    assert(path@ =~= t@.take(colon as int));
                    ListLine::Request { path: string_of(path.as_slice()), line_number }
                },
            }
        },
    }
}

// ---------------------------------------------------------------------------
// The output of the search tool
// ---------------------------------------------------------------------------

/// The four fields of a line of search output, `path:line:column:content`.
#[derive(Clone, Debug, PartialEq, Eq)]
pub struct SearchFields {
    pub path: String,
    pub line: String,
    pub column: String,
    pub content: String,
}

/// What `SearchFields` stand for.
pub struct SearchFieldsView {
    pub path: Seq<char>,
    pub line: Seq<char>,
    pub column: Seq<char>,
    pub content: Seq<char>,
}

impl View for SearchFields {
    type V = SearchFieldsView;

    open spec fn view(&self) -> SearchFieldsView {
        SearchFieldsView {
            path: self.path@,
            line: self.line@,
            column: self.column@,
            content: self.content@,
        }
    }
}

/// The fields of a line of search output: the first three colons part them,
/// and the content is all that follows the third. A line with fewer than three
/// colons has none.
pub open spec fn search_fields(line: Seq<char>) -> Option<SearchFieldsView> {
    let c1 = find_from(line, ':', 0);
    let c2 = find_from(line, ':', c1 + 1);
    let c3 = find_from(line, ':', c2 + 1);
    if c1 < line.len() && c2 < line.len() && c3 < line.len() {
        Some(
            SearchFieldsView {
                path: line.subrange(0, c1),
                line: line.subrange(c1 + 1, c2),
                column: line.subrange(c2 + 1, c3),
                content: line.skip(c3 + 1),
            },
        )
    } else {
        None
    }
}

/// Splits one line of search output into its fields.
pub fn split_search_line(line: &str) -> (r: Option<SearchFields>)
    ensures
        r is Some <==> search_fields(line@) is Some,
        r matches Some(f) ==> f@ == search_fields(line@)->0,
{
    let chars = chars_of(line);
    let s = chars.as_slice();
    let c1: usize = position_from(s, ':', 0);
    if c1 >= s.len() {
        return None;
    }
    let c2: usize = position_from(s, ':', c1 + 1);
    if c2 >= s.len() {
        return None;
    }
    let c3: usize = position_from(s, ':', c2 + 1);
    if c3 >= s.len() {
        return None;
    }
    let content = sub_chars(s, c3 + 1, s.len());
    assert(content@ =~= s@.skip(c3 + 1));
    Some(
        SearchFields {
            path: string_of(sub_chars(s, 0, c1).as_slice()),
            line: string_of(sub_chars(s, c1 + 1, c2).as_slice()),
            column: string_of(sub_chars(s, c2 + 1, c3).as_slice()),
            content: string_of(content.as_slice()),
        },
    )
}

/// What becomes of a line of search output.
#[derive(Clone, Debug, PartialEq, Eq)]
pub enum SearchVerdict {
    /// The column is no number: the output cannot be trusted.
    BadColumn,
    /// The match lies in a column that was not asked for.
    OutsideColumns,
    /// The content matches a pattern of exclusion.
    Excluded,
    /// The line number is no number: the output cannot be trusted.
    BadLine,
    /// The match is kept, at this line.
    Keep { line_number: usize },
}

/// Whether `column` is one of `columns`.
pub open spec fn column_listed(columns: Seq<usize>, column: usize) -> bool {
    exists|i: int| 0 <= i < columns.len() && #[trigger] columns[i] == column
}

/// What becomes of a line with the given fields: its column must be a number
/// and, where columns were asked for, one of them; its content must not be
/// excluded; its line must be a number. The first of these that fails decides.
pub open spec fn search_verdict(
    fields: SearchFieldsView,
    columns: Option<Seq<usize>>,
    excluded: bool,
) -> SearchVerdict {
    match unsigned_value(fields.column) {
        None => SearchVerdict::BadColumn,
        Some(column) => {
            if columns is Some && !column_listed(columns->0, column) {
                SearchVerdict::OutsideColumns
            } else if excluded {
                SearchVerdict::Excluded
            } else {
                match unsigned_value(fields.line) {
                    None => SearchVerdict::BadLine,
                    Some(n) => SearchVerdict::Keep { line_number: n },
                }
            }
        },
    }
}

/// Whether `column` is one of `columns`.
pub fn column_allowed(columns: &Vec<usize>, column: usize) -> (b: bool)
    ensures
        b == column_listed(columns@, column),
{
    let mut i: usize = 0;
    while i < columns.len()
        invariant
            i <= columns@.len(),
            forall|k: int| 0 <= k < i ==> #[trigger] columns@[k] != column,
        decreases columns.len() - i,
    {
        if columns[i] == column {
            return true;
        }
        i += 1;
    }
    false
}

/// The view of an optional list of columns.
pub open spec fn columns_view(columns: Option<&Vec<usize>>) -> Option<Seq<usize>> {
    match columns {
        Some(v) => Some(v@),
        None => None,
    }
}

/// Decides what becomes of a line of search output. `columns` are the columns
/// that were asked for, if any were; `excluded` says whether the content
/// matches a pattern of exclusion.
pub fn judge_search_line(fields: &SearchFields, columns: Option<&Vec<usize>>, excluded: bool) -> (r:
    SearchVerdict)
    ensures
        r == search_verdict(fields@, columns_view(columns), excluded),
{
    let column_text = chars_of(fields.column.as_str());
    let column: usize = match parse_unsigned(column_text.as_slice()) {
        None => {
            return SearchVerdict::BadColumn;
        },
        Some(c) => c,
    };
    match columns {
        Some(list) => {
            if !column_allowed(list, column) {
                return SearchVerdict::OutsideColumns;
            }
        },
        None => {},
    }
    if excluded {
        return SearchVerdict::Excluded;
    }
    let line_text = chars_of(fields.line.as_str());
    match parse_unsigned(line_text.as_slice()) {
        None => SearchVerdict::BadLine,
        Some(line_number) => SearchVerdict::Keep { line_number },
    }
}

// ---------------------------------------------------------------------------
// The matches of a search, in order
// ---------------------------------------------------------------------------

/// A match that the search found and that was kept.
#[derive(Clone, Debug, PartialEq, Eq)]
pub struct FoundMatch {
    pub path: String,
    pub line_number: usize,
    pub content: String,
}

/// Whether the match `x` stands at or before `y`: by path first, then by line
/// number.
pub open spec fn found_le(x: FoundMatch, y: FoundMatch) -> bool {
    &&& path_le(x.path@, y.path@)
    &&& path_le(y.path@, x.path@) ==> x.line_number <= y.line_number
}

/// Whether the match at position `a` goes before the one at position `b`: it
/// stands before it, or at the same place and it was found first.
pub open spec fn found_before(found: Seq<FoundMatch>, a: int, b: int) -> bool {
    &&& found_le(found[a], found[b])
    &&& found_le(found[b], found[a]) ==> a < b
}

/// Whether `order` lists the positions of the matches, each once, by path and
/// line, matches of one line of one file in the order in which they were
/// found.
pub open spec fn is_match_order(found: Seq<FoundMatch>, order: Seq<usize>) -> bool {
    &&& order.len() == found.len()
    &&& forall|i: int| 0 <= i < order.len() ==> (#[trigger] order[i]) < found.len()
    &&& forall|k: int| 0 <= k < found.len() ==> #[trigger] occurs(order, k)
    &&& forall|i: int, j: int|
        0 <= i < j < order.len() ==> found_before(
            found,
            #[trigger] order[i] as int,
            #[trigger] order[j] as int,
        )
}

/// The first `count` matches in the given order.
pub open spec fn first_in_order(found: Seq<FoundMatch>, order: Seq<usize>, count: int) -> Seq<
    FoundMatch,
> {
    Seq::new(count as nat, |i: int| found[order[i] as int])
}

/// Of two matches one stands at or before the other.
proof fn lemma_found_le_total(x: FoundMatch, y: FoundMatch)
    requires
        path_order_laws(),
    ensures
        found_le(x, y) || found_le(y, x),
{
    lemma_path_total(x.path@, y.path@);
}

/// The order of matches is transitive.
proof fn lemma_found_le_transitive(x: FoundMatch, y: FoundMatch, z: FoundMatch)
    requires
        path_order_laws(),
        found_le(x, y),
        found_le(y, z),
    ensures
        found_le(x, z),
{
    lemma_path_transitive(x.path@, y.path@, z.path@);
    if path_le(z.path@, x.path@) {
        lemma_path_transitive(z.path@, x.path@, y.path@);
        lemma_path_transitive(y.path@, z.path@, x.path@);
    }
}

/// Whether the match `x` stands at or before `y`.
fn found_at_most(x: &FoundMatch, y: &FoundMatch) -> (r: bool)
    ensures
        r == found_le(*x, *y),
        path_order_laws(),
{
    if !path_at_most(x.path.as_str(), y.path.as_str()) {
        false
    } else if path_at_most(y.path.as_str(), x.path.as_str()) {
        x.line_number <= y.line_number
    } else {
        true
    }
}

/// The positions of the matches by path and line.
fn match_order(found: &Vec<FoundMatch>) -> (order: Vec<usize>)
    ensures
        is_match_order(found@, order@),
{
    let mut order: Vec<usize> = Vec::new();
    let mut k: usize = 0;
    while k < found.len()
        invariant
            k <= found@.len(),
            order@.len() == k,
            forall|i: int| 0 <= i < order@.len() ==> (#[trigger] order@[i]) < k,
            forall|m: int| 0 <= m < k ==> #[trigger] occurs(order@, m),
            forall|i: int, j: int|
                0 <= i < j < order@.len() ==> found_before(
                    found@,
                    #[trigger] order@[i] as int,
                    #[trigger] order@[j] as int,
                ),
        decreases found.len() - k,
    {
        let mut p: usize = 0;
        let mut end: usize = order.len();
        while p < end
            invariant
                p <= end <= order@.len(),
                order@.len() == k,
                k < found@.len(),
                forall|i: int| 0 <= i < order@.len() ==> (#[trigger] order@[i]) < k,
                forall|i: int, j: int|
                    0 <= i < j < order@.len() ==> found_before(
                        found@,
                        #[trigger] order@[i] as int,
                        #[trigger] order@[j] as int,
                    ),
                p > 0 || end < order@.len() ==> path_order_laws(),
                forall|i: int|
                    0 <= i < p ==> found_le(found@[#[trigger] order@[i] as int], found@[k as int]),
                forall|i: int|
                    end <= i < order@.len() ==> !found_le(
                        found@[#[trigger] order@[i] as int],
                        found@[k as int],
                    ),
            decreases end - p,
        {
            let mid: usize = p + (end - p) / 2;
            let ghost here = found@[order@[mid as int] as int];
            if found_at_most(&found[order[mid]], &found[k]) {
                proof {
                    assert forall|i: int| 0 <= i < mid + 1 implies found_le(
                        found@[#[trigger] order@[i] as int],
                        found@[k as int],
                    ) by {
                        if i < mid {
                            assert(found_before(found@, order@[i] as int, order@[mid as int] as int));
                            lemma_found_le_transitive(
                                found@[order@[i] as int],
                                here,
                                found@[k as int],
                            );
                        }
                    }
                }
                p = mid + 1;
            } else {
                proof {
                    assert forall|i: int| mid <= i < order@.len() implies !found_le(
                        found@[#[trigger] order@[i] as int],
                        found@[k as int],
                    ) by {
                        if i > mid {
                            let there = found@[order@[i] as int];
                            assert(found_before(found@, order@[mid as int] as int, order@[i] as int));
                            if found_le(there, found@[k as int]) {
                                lemma_found_le_transitive(here, there, found@[k as int]);
                            }
                        }
                    }
                }
                end = mid;
            }
        }
        let ghost before = order@;
        proof {
            assert forall|j: int| p <= j < before.len() implies found_before(
                found@,
                k as int,
                #[trigger] before[j] as int,
            ) by {
                lemma_found_le_total(found@[before[j] as int], found@[k as int]);
            }
        }
        order.insert(p, k);
        proof {
            let after = order@;
            assert(after == before.insert(p as int, k));
            assert forall|m: int| 0 <= m < k + 1 implies #[trigger] occurs(after, m) by {
                if m == k {
                    assert(after[p as int] == k);
                } else {
                    assert(occurs(before, m));
                    let i = choose|i: int| 0 <= i < before.len() && #[trigger] before[i] == m;
                    if i < p {
                        assert(after[i] == m);
                    } else {
                        assert(after[i + 1] == m);
                    }
                }
            }
            assert forall|i: int, j: int| 0 <= i < j < after.len() implies found_before(
                found@,
                #[trigger] after[i] as int,
                #[trigger] after[j] as int,
            ) by {
                if j < p {
                    assert(after[i] == before[i] && after[j] == before[j]);
                } else if j == p {
                    assert(after[i] == before[i]);
                    assert(before[i] < k);
                } else if i < p {
                    assert(after[i] == before[i] && after[j] == before[j - 1]);
                } else if i == p {
                    assert(after[j] == before[j - 1]);
                } else {
                    assert(after[i] == before[i - 1] && after[j] == before[j - 1]);
                }
            }
        }
        k += 1;
    }
    order
}

/// The matches to edit: all matches by path and line, cut off after
/// `max_count` of them.
pub fn select_matches(found: &Vec<FoundMatch>, max_count: usize) -> (out: Vec<FoundMatch>)
    ensures
        out@.len() == if found@.len() <= max_count {
            found@.len()
        } else {
            max_count as nat
        },
        exists|order: Seq<usize>| #[trigger]
            is_match_order(found@, order) && out@ == first_in_order(
                found@,
                order,
                out@.len() as int,
            ),
{
    let order = match_order(found);
    let count: usize = if found.len() <= max_count {
        found.len()
    } else {
        max_count
    };
    let mut out: Vec<FoundMatch> = Vec::new();
    let mut i: usize = 0;
    assert(out@ =~= first_in_order(found@, order@, 0));
    while i < count
        invariant
            i <= count <= order@.len(),
            is_match_order(found@, order@),
            out@ == first_in_order(found@, order@, i as int),
        decreases count - i,
    {
        let m = &found[order[i]];
        let copy = FoundMatch {
            path: m.path.clone(),
            line_number: m.line_number,
            content: m.content.clone(),
        };
        assert(copy == found@[order@[i as int] as int]);
        out.push(copy);
        assert(out@ =~= first_in_order(found@, order@, i + 1));
        i += 1;
    }
    assert(is_match_order(found@, order@) && out@ == first_in_order(
        found@,
        order@,
        out@.len() as int,
    ));
    out
}

// ---------------------------------------------------------------------------
// The files and the match lines of a search
// ---------------------------------------------------------------------------

/// The match line of a found match: the match under the alias of the first
/// record whose display path is the path of the match. A match whose path is
/// the display path of no record gives none.
pub open spec fn found_line_for(reg: Seq<RecordView>, found: FoundMatch) -> Option<MatchLineView> {
    let i = first_display(reg, found.path@, 0);
    if i < reg.len() {
        Some(
            MatchLineView {
                alias: reg[i].alias,
                line_number: found.line_number as nat,
                content: found.content@,
            },
        )
    } else {
        None
    }
}

/// The match lines of the found matches whose files are tracked, in the order
/// of the matches.
pub open spec fn found_lines_for(reg: Seq<RecordView>, matches: Seq<FoundMatch>) -> Seq<
    MatchLineView,
>
    decreases matches.len(),
{
    if matches.len() == 0 {
        Seq::empty()
    } else {
        let rest = found_lines_for(reg, matches.drop_last());
        match found_line_for(reg, matches.last()) {
            Some(m) => rest.push(m),
            None => rest,
        }
    }
}

/// Registers the files of a search one after the other, and gives every match
/// the alias of its file.
///
/// Files beyond the last alias are not tracked, and the matches in them are
/// left out; the caller sees that from the number of tracked files.
pub fn register_found(matches: &Vec<FoundMatch>, files: &Vec<LoadedFile>) -> (r: (
    FileRegistry,
    Vec<MatchLine>,
))
    ensures
        r.0@ == registered_all(files@),
        match_lines_view(r.1@) == found_lines_for(r.0@, matches@),
{
    let mut registry = FileRegistry::new();
    let mut n: usize = 0;
    assert(files@.take(0) =~= Seq::<LoadedFile>::empty());
    while n < files.len()
        invariant
            n <= files@.len(),
            registry@ == registered_all(files@.take(n as int)),
        decreases files.len() - n,
    {
        let file = copy_file(&files[n]);
        let ghost upto = files@.take(n + 1);
        assert(upto.drop_last() =~= files@.take(n as int));
        assert(upto.last() == files@[n as int]);
        registry.register(file);
        n += 1;
    }
    assert(files@.take(files@.len() as int) =~= files@);
    let mut out: Vec<MatchLine> = Vec::new();
    let mut k: usize = 0;
    assert(matches@.take(0) =~= Seq::<FoundMatch>::empty());
    assert(match_lines_view(out@) =~= Seq::<MatchLineView>::empty());
    while k < matches.len()
        invariant
            k <= matches@.len(),
            match_lines_view(out@) == found_lines_for(registry@, matches@.take(k as int)),
        decreases matches.len() - k,
    {
        let found = &matches[k];
        let ghost upto = matches@.take(k + 1);
        assert(upto.drop_last() =~= matches@.take(k as int));
        assert(upto.last() == matches@[k as int]);
        match registry.find_display(&found.path) {
            None => {},
            Some(i) => {
                let ghost before = match_lines_view(out@);
                let m = MatchLine {
                    alias: registry.record(i).alias,
                    line_number: found.line_number,
                    original_content: found.content.clone(),
                };
                out.push(m);
                assert(match_lines_view(out@) =~= before.push(m@));
            },
        }
        k += 1;
    }
    assert(matches@.take(matches@.len() as int) =~= matches@);
    (registry, out)
}

// ---------------------------------------------------------------------------
// Column ranges
// ---------------------------------------------------------------------------

/// The longest number that a column range may hold, in digits.
pub const MAX_COLUMN_DIGITS: usize = 9;

/// The column that an open range ends at.
pub open spec fn default_last_column() -> Seq<char> {
    "200"@
}

/// A column range with its open ends closed: a range that starts with `..`
/// starts at column 1, and one that ends with `..` ends at column 200.
pub open spec fn expanded_range(text: Seq<char>) -> Seq<char> {
    let front = if starts_with_dots(text) {
        seq!['1'] + text
    } else {
        text
    };
    if ends_with_dots(text) {
        front + default_last_column()
    } else {
        front
    }
}

/// Whether `text` starts with `..`.
pub open spec fn starts_with_dots(text: Seq<char>) -> bool {
    text.len() >= 2 && text[0] == '.' && text[1] == '.'
}

/// Whether `text` ends with `..`.
pub open spec fn ends_with_dots(text: Seq<char>) -> bool {
    text.len() >= 2 && text[text.len() - 1] == '.' && text[text.len() - 2] == '.'
}

/// The length of the run of digits that `s` ends in.
pub open spec fn digits_at_end(s: Seq<char>) -> nat
    decreases s.len(),
{
    if s.len() > 0 && is_digit(s.last()) {
        digits_at_end(s.drop_last()) + 1
    } else {
        0
    }
}

/// Whether no run of digits in `s` is longer than `MAX_COLUMN_DIGITS`.
pub open spec fn numbers_short(s: Seq<char>) -> bool {
    forall|k: int| 0 <= k <= s.len() ==> digits_at_end(#[trigger] s.take(k)) <= MAX_COLUMN_DIGITS
}

/// The columns that `range_parser` reads from a range text with `;` between
/// values and `..` between the ends of a range, or `None` where it fails.
pub uninterp spec fn parsed_ranges(text: Seq<char>) -> Option<Seq<usize>>;

/// Why a column range was refused.
#[derive(Clone, Debug, PartialEq, Eq)]
pub enum ColumnRangeError {
    /// A number has more than `MAX_COLUMN_DIGITS` digits.
    NumberTooLong,
    /// The text is no list of columns and ranges.
    Invalid,
}

/// `range_parser::parse_with::<usize>` with the value separator `;` and the
/// range separator `..`: every value and every column of every range, in the
/// order of the text, or an error where the text cannot be read. The numbers
/// are required to be short, so that every range is of moderate length and its
/// end can be counted up to.
#[verifier::external_body]
fn parse_ranges(text: &str) -> (r: Result<Vec<usize>, ColumnRangeError>)
    requires
        numbers_short(text@),
    ensures
        match r {
            Ok(v) => parsed_ranges(text@) == Some(v@),
            Err(e) => e == ColumnRangeError::Invalid && parsed_ranges(text@) is None,
        },
{
    match range_parser::parse_with::<usize>(text, ";", "..") {
        Ok(columns) => Ok(columns),
        Err(_) => Err(ColumnRangeError::Invalid),
    }
}

/// Closes the open ends of a column range.
pub fn expand_column_range(text: &str) -> (r: String)
    ensures
        r@ == expanded_range(text@),
{
    let chars = chars_of(text);
    let n: usize = chars.len();
    let mut out: Vec<char> = Vec::new();
    if n >= 2 && chars[0] == '.' && chars[1] == '.' {
        out.push('1');
    }
    append_chars(&mut out, chars.as_slice());
    if n >= 2 && chars[n - 1] == '.' && chars[n - 2] == '.' {
        append_str(&mut out, "200");
    }
    assert(out@ =~= expanded_range(text@));
    string_of(out.as_slice())
}

/// Whether no run of digits in `text` is longer than `MAX_COLUMN_DIGITS`.
pub fn has_short_numbers(text: &str) -> (b: bool)
    ensures
        b == numbers_short(text@),
{
    let chars = chars_of(text);
    let mut run: usize = 0;
    let mut i: usize = 0;
    assert(chars@.take(0) =~= Seq::<char>::empty());
    while i < chars.len()
        invariant
            i <= chars@.len(),
            chars@ == text@,
            run == digits_at_end(chars@.take(i as int)),
            run <= MAX_COLUMN_DIGITS,
            forall|k: int| 0 <= k <= i ==> digits_at_end(#[trigger] chars@.take(k)) <= MAX_COLUMN_DIGITS,
        decreases chars.len() - i,
    {
        let c: char = chars[i];
        let ghost next = chars@.take(i + 1);
        assert(next.drop_last() =~= chars@.take(i as int));
        assert(next.last() == c);
        if c >= '0' && c <= '9' {
            run = run + 1;
            if run > MAX_COLUMN_DIGITS {
                assert(digits_at_end(text@.take(i + 1)) > MAX_COLUMN_DIGITS);
                return false;
            }
        } else {
            run = 0;
        }
        i += 1;
    }
    true
}

/// Reads a column range such as `1..3`, `..3`, `198..` or `1..2;5..6` into the
/// columns that it names.
///
/// The open ends are closed first. A text with a number of more than
/// `MAX_COLUMN_DIGITS` digits is refused; every other text is read as
/// `parsed_ranges` says.
pub fn parse_column_range(text: &str) -> (r: Result<Vec<usize>, ColumnRangeError>)
    ensures
        !numbers_short(expanded_range(text@)) ==> (r matches Err(e) && e
            == ColumnRangeError::NumberTooLong),
        numbers_short(expanded_range(text@)) ==> match r {
            Ok(v) => parsed_ranges(expanded_range(text@)) == Some(v@),
            Err(e) => e == ColumnRangeError::Invalid && parsed_ranges(expanded_range(text@))
                is None,
        },
{
    let expanded = expand_column_range(text);
    if !has_short_numbers(expanded.as_str()) {
        return Err(ColumnRangeError::NumberTooLong);
    }
    parse_ranges(expanded.as_str())
}

} // verus!

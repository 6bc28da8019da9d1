//! The grammar of one buffer line.
//!
//! A data line reads: optional whitespace, the alias in upper-case letters,
//! whitespace, the line number in decimal digits, whitespace, one marker glyph,
//! then either nothing or one whitespace character followed by the content.
//! Lines that start with `#`, blank lines, lines with more than one glyph and
//! everything else are told apart, so that a caller sees why a line was passed
//! over.

use crate::text::{blank, decimal_value, is_blank, is_digit, is_space, is_space_char};
use crate::alias::is_upper;
use vstd::prelude::*;

verus! {

/// The glyph that marks the lines of every second file group.
pub const LIGHT_GLYPH: char = '░';

/// The glyph that marks the lines of the other file groups, the first included.
pub const HEAVY_GLYPH: char = '▓';

/// Whether `c` is one of the two marker glyphs.
pub open spec fn is_glyph(c: char) -> bool {
    c == '░' || c == '▓'
}

/// Whether `c` is one of the two marker glyphs.
pub fn is_glyph_char(c: char) -> (b: bool)
    ensures
        b == is_glyph(c),
{
    c == LIGHT_GLYPH || c == HEAVY_GLYPH
}

/// How many marker glyphs `s` holds.
pub open spec fn glyph_count(s: Seq<char>) -> nat
    decreases s.len(),
{
    if s.len() == 0 {
        0
    } else {
        glyph_count(s.drop_last()) + if is_glyph(s.last()) {
            1nat
        } else {
            0nat
        }
    }
}

/// The classes of characters that the grammar is made of.
#[derive(Clone, Copy, Debug, PartialEq, Eq, Structural)]
pub enum CharClass {
    Space,
    Upper,
    Digit,
}

/// Whether `c` belongs to `class`.
pub open spec fn in_class(c: char, class: CharClass) -> bool {
    match class {
        CharClass::Space => is_space(c),
        CharClass::Upper => is_upper(c),
        CharClass::Digit => is_digit(c),
    }
}

/// Where the longest run of characters of `class` that starts at `from` ends.
pub open spec fn span_end(s: Seq<char>, from: int, class: CharClass) -> int
    decreases s.len() - from,
{
    if 0 <= from < s.len() && in_class(s[from], class) {
        span_end(s, from + 1, class)
    } else {
        from
    }
}

/// The three fields of a data line.
pub struct DataLine {
    pub alias: Seq<char>,
    pub line_number: nat,
    pub content: Seq<char>,
}

/// What a buffer line is, by the grammar alone.
pub enum Scan {
    /// It starts with `#`.
    Comment,
    /// It holds nothing but whitespace.
    Blank,
    /// It holds more than one marker glyph: two lines were joined.
    Corrupt,
    /// It is some other text.
    Unrecognized,
    /// It is a data line.
    Data(DataLine),
}

/// The data line that `line` is, if it follows the grammar and its number fits
/// a machine word.
pub open spec fn data_line(line: Seq<char>) -> Option<DataLine> {
    let a0 = span_end(line, 0, CharClass::Space);
    let a1 = span_end(line, a0, CharClass::Upper);
    let n0 = span_end(line, a1, CharClass::Space);
    let n1 = span_end(line, n0, CharClass::Digit);
    let g = span_end(line, n1, CharClass::Space);
    if a0 < a1 && a1 < n0 && n0 < n1 && n1 < g && g < line.len() && is_glyph(line[g])
        && decimal_value(line.subrange(n0, n1)) <= usize::MAX && (g + 1 == line.len() || is_space(
        line[g + 1],
    )) {
        Some(
            DataLine {
                alias: line.subrange(a0, a1),
                line_number: decimal_value(line.subrange(n0, n1)),
                content: if g + 1 == line.len() {
                    Seq::empty()
                } else {
                    line.skip(g + 2)
                },
            },
        )
    } else {
        None
    }
}

/// What `line` is.
pub open spec fn scan(line: Seq<char>) -> Scan {
    if line.len() > 0 && line[0] == '#' {
        Scan::Comment
    } else if is_blank(line) {
        Scan::Blank
    } else if glyph_count(line) > 1 {
        Scan::Corrupt
    } else {
        match data_line(line) {
            Some(d) => Scan::Data(d),
            None => Scan::Unrecognized,
        }
    }
}

/// What a buffer line is, with the fields of a data line.
#[derive(Clone, Debug, PartialEq, Eq)]
pub enum LineScan {
    Comment,
    Blank,
    Corrupt,
    Unrecognized,
    Data { alias: Vec<char>, line_number: usize, content: Vec<char> },
}

impl View for LineScan {
    type V = Scan;

    open spec fn view(&self) -> Scan {
        match self {
            LineScan::Comment => Scan::Comment,
            LineScan::Blank => Scan::Blank,
            LineScan::Corrupt => Scan::Corrupt,
            LineScan::Unrecognized => Scan::Unrecognized,
            LineScan::Data { alias, line_number, content } => Scan::Data(
                DataLine { alias: alias@, line_number: *line_number as nat, content: content@ },
            ),
        }
    }
}

// ---------------------------------------------------------------------------
// Facts about runs and numbers
// ---------------------------------------------------------------------------

/// A run ends where the first character outside the class stands.
pub proof fn lemma_span(s: Seq<char>, from: int, to: int, class: CharClass)
    requires
        0 <= from <= to <= s.len(),
        forall|k: int| from <= k < to ==> in_class(#[trigger] s[k], class),
        to == s.len() || !in_class(s[to], class),
    ensures
        span_end(s, from, class) == to,
    decreases to - from,
{
    if from < to {
        assert(in_class(s[from], class));
        lemma_span(s, from + 1, to, class);
    }
}

/// The number that a prefix of a digit sequence denotes is no larger than the
/// number of the whole.
pub proof fn lemma_decimal_value_prefix(s: Seq<char>, i: int)
    requires
        0 <= i <= s.len(),
        forall|k: int| 0 <= k < s.len() ==> is_digit(#[trigger] s[k]),
    ensures
        decimal_value(s.take(i)) <= decimal_value(s),
    decreases s.len() - i,
{
    if i == s.len() {
        assert(s.take(i) =~= s);
    } else {
        let t = s.drop_last();
        assert(is_digit(s[s.len() - 1]));
        assert(t.take(i) =~= s.take(i));
        lemma_decimal_value_prefix(t, i);
    }
}

// ---------------------------------------------------------------------------
// The scanner
// ---------------------------------------------------------------------------

/// Whether `c` belongs to `class`.
fn in_class_char(c: char, class: CharClass) -> (b: bool)
    ensures
        b == in_class(c, class),
{
    match class {
        CharClass::Space => is_space_char(c),
        CharClass::Upper => c >= 'A' && c <= 'Z',
        CharClass::Digit => c >= '0' && c <= '9',
    }
}

/// Where the run of `class` that starts at `from` ends.
pub fn span(line: &[char], from: usize, class: CharClass) -> (end: usize)
    requires
        from <= line@.len(),
    ensures
        end == span_end(line@, from as int, class),
        from <= end <= line@.len(),
{
    let mut i: usize = from;
    while i < line.len() && in_class_char(line[i], class)
        invariant
            from <= i <= line@.len(),
            forall|k: int| from <= k < i ==> in_class(#[trigger] line@[k], class),
        decreases line.len() - i,
    {
        i += 1;
    }
    proof {
        lemma_span(line@, from as int, i as int, class);
    }
    i
}

/// How many marker glyphs `line` holds.
pub fn count_glyphs(line: &[char]) -> (n: usize)
    ensures
        n == glyph_count(line@),
{
    let mut n: usize = 0;
    let mut i: usize = 0;
    assert(line@.take(0) =~= Seq::<char>::empty());
    while i < line.len()
        invariant
            i <= line@.len(),
            n <= i,
            n == glyph_count(line@.take(i as int)),
        decreases line.len() - i,
    {
        assert(line@.take(i + 1).drop_last() =~= line@.take(i as int));
        assert(line@.take(i + 1).last() == line@[i as int]);
        if is_glyph_char(line[i]) {
            n += 1;
        }
        i += 1;
    }
    assert(line@.take(line.len() as int) =~= line@);
    n
}

/// A copy of the characters from `from` up to `to`.
pub fn sub_chars(line: &[char], from: usize, to: usize) -> (v: Vec<char>)
    requires
        from <= to <= line@.len(),
    ensures
        v@ == line@.subrange(from as int, to as int),
{
    let mut v: Vec<char> = Vec::new();
    let mut i: usize = from;
    assert(v@ =~= line@.subrange(from as int, from as int));
    while i < to
        invariant
            from <= i <= to <= line@.len(),
            v@ == line@.subrange(from as int, i as int),
        decreases to - i,
    {
        v.push(line[i]);
        assert(v@ =~= line@.subrange(from as int, i + 1));
        i += 1;
    }
    v
}

/// The number that the digits denote, if it fits a machine word.
pub fn parse_number(digits: &[char]) -> (r: Option<usize>)
    requires
        forall|k: int| 0 <= k < digits@.len() ==> is_digit(#[trigger] digits@[k]),
    ensures
        r is Some <==> decimal_value(digits@) <= usize::MAX,
        r matches Some(v) ==> v == decimal_value(digits@),
{
    let mut acc: usize = 0;
    let mut i: usize = 0;
    assert(digits@.take(0) =~= Seq::<char>::empty());
    while i < digits.len()
        invariant
            i <= digits@.len(),
            forall|k: int| 0 <= k < digits@.len() ==> is_digit(#[trigger] digits@[k]),
            acc == decimal_value(digits@.take(i as int)),
        decreases digits.len() - i,
    {
        let c: char = digits[i];
        assert(is_digit(digits@[i as int]));
        let d: usize = (c as u32 - 48) as usize;
        let ghost next = digits@.take(i + 1);
        assert(next.drop_last() =~= digits@.take(i as int));
        assert(next.last() == c);
        assert(decimal_value(next) == acc * 10 + d);
        if acc > (usize::MAX - d) / 10 {
            proof {
                lemma_decimal_value_prefix(digits@, i + 1);
            }
            return None;
        }
        acc = acc * 10 + d;
        i += 1;
    }
    assert(digits@.take(digits.len() as int) =~= digits@);
    Some(acc)
}

/// Reads one buffer line.
pub fn scan_line(line: &[char]) -> (r: LineScan)
    ensures
        r@ == scan(line@),
{
    if line.len() > 0 && line[0] == '#' {
        return LineScan::Comment;
    }
    if blank(line) {
        return LineScan::Blank;
    }
    if count_glyphs(line) > 1 {
        return LineScan::Corrupt;
    }
    let a0: usize = span(line, 0, CharClass::Space);
    let a1: usize = span(line, a0, CharClass::Upper);
    let n0: usize = span(line, a1, CharClass::Space);
    let n1: usize = span(line, n0, CharClass::Digit);
    let g: usize = span(line, n1, CharClass::Space);
    if !(a0 < a1 && a1 < n0 && n0 < n1 && n1 < g && g < line.len()) {
        return LineScan::Unrecognized;
    }
    if !is_glyph_char(line[g]) {
        return LineScan::Unrecognized;
    }
    let digits = sub_chars(line, n0, n1);
    proof {
        lemma_digits_of_span(line@, n0 as int);
    }
    let line_number: usize = match parse_number(digits.as_slice()) {
        Some(n) => n,
        None => {
            return LineScan::Unrecognized;
        },
    };
    let content: Vec<char> = if g + 1 == line.len() {
        Vec::new()
    } else if is_space_char(line[g + 1]) {
        let rest = sub_chars(line, g + 2, line.len());
        assert(rest@ =~= line@.skip(g + 2));
        rest
    } else {
        return LineScan::Unrecognized;
    };
    let alias = sub_chars(line, a0, a1);
    LineScan::Data { alias, line_number, content }
}

/// The characters of a run belong to its class.
pub proof fn lemma_run_in_class(s: Seq<char>, from: int, class: CharClass)
    requires
        0 <= from <= s.len(),
    ensures
        from <= span_end(s, from, class) <= s.len(),
        forall|k: int| from <= k < span_end(s, from, class) ==> in_class(#[trigger] s[k], class),
        span_end(s, from, class) < s.len() ==> !in_class(s[span_end(s, from, class)], class),
    decreases s.len() - from,
{
    if from < s.len() && in_class(s[from], class) {
        lemma_run_in_class(s, from + 1, class);
    }
}

/// The run of digits that starts at `from` holds digits only.
proof fn lemma_digits_of_span(s: Seq<char>, from: int)
    requires
        0 <= from <= s.len(),
    ensures
        forall|k: int|
            0 <= k < s.subrange(from, span_end(s, from, CharClass::Digit)).len() ==> is_digit(
                #[trigger] s.subrange(from, span_end(s, from, CharClass::Digit))[k],
            ),
{
    lemma_run_in_class(s, from, CharClass::Digit);
    let to = span_end(s, from, CharClass::Digit);
    let sub = s.subrange(from, to);
    assert forall|k: int| 0 <= k < sub.len() implies is_digit(#[trigger] sub[k]) by {
        assert(in_class(s[from + k], CharClass::Digit));
    }
}

} // verus!

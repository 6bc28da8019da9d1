//! The virtual buffer as text: a block of comments, one data line per match
//! line, and a legend that names the file behind every alias.

use crate::alias::FileAlias;
use crate::registry::{match_lines_view, FileRegistry, MatchLine, MatchLineView, RecordView};
use crate::scan::{HEAVY_GLYPH, LIGHT_GLYPH};
use crate::text::{append_chars, append_decimal, append_padded, append_str, chars_of, decimal, digit_count, lemma_decimal, pad_left, string_of, unlines};
use vstd::prelude::*;

verus! {

/// The columns that an alias is right-aligned in.
pub const ALIAS_WIDTH: usize = 3;

/// The comment lines at the head of the buffer, with the session's label in
/// the second, and the empty line that ends them.
pub open spec fn header_lines(label: Seq<char>) -> Seq<Seq<char>> {
    seq![
        "# okapi – bulk editing buffer"@,
        "# "@ + label,
        "#"@,
        "# - Save and close to apply changes."@,
        "# - Unchanged lines and those starting with '#' are ignored."@,
        "# - Delete everything after the shade block (▓) to remove a line."@,
        "#"@,
        "# --- Begin editable lines ---"@,
        Seq::<char>::empty(),
    ]
}

/// The two lines between the data lines and the legend.
pub open spec fn legend_head() -> Seq<Seq<char>> {
    seq![Seq::<char>::empty(), "# --- File Aliases ---"@]
}

/// The width of the number column for the first `k` match lines: the largest
/// count of digits among their line numbers, and 1 if there are none.
pub open spec fn width_upto(matches: Seq<MatchLineView>, k: nat) -> nat
    decreases k,
{
    if k == 0 {
        1
    } else {
        let before = width_upto(matches, (k - 1) as nat);
        let here = decimal(matches[k - 1].line_number).len();
        if here > before {
            here
        } else {
            before
        }
    }
}

/// The width of the number column.
pub open spec fn number_width(matches: Seq<MatchLineView>) -> nat {
    width_upto(matches, matches.len())
}

/// Whether match line `k` carries the heavy glyph. The first line does, and
/// the glyph changes whenever the alias differs from that of the line before.
pub open spec fn heavy_at(matches: Seq<MatchLineView>, k: int) -> bool
    decreases k,
{
    if k <= 0 {
        true
    } else if matches[k].alias != matches[k - 1].alias {
        !heavy_at(matches, k - 1)
    } else {
        heavy_at(matches, k - 1)
    }
}

/// The glyph of match line `k`.
pub open spec fn glyph_at(matches: Seq<MatchLineView>, k: int) -> char {
    if heavy_at(matches, k) {
        '▓'
    } else {
        '░'
    }
}

/// One data line: the alias right-aligned in three columns, a space, the line
/// number right-aligned in `width` columns, a space, the glyph, a space, and
/// the content.
pub open spec fn data_text(m: MatchLineView, width: nat, glyph: char) -> Seq<char> {
    pad_left(m.alias, ALIAS_WIDTH as nat) + seq![' '] + pad_left(decimal(m.line_number), width)
        + seq![' ', glyph, ' '] + m.content
}

/// The data lines of the buffer, one per match line and in their order.
pub open spec fn data_lines(matches: Seq<MatchLineView>) -> Seq<Seq<char>> {
    Seq::new(
        matches.len(),
        |k: int| data_text(matches[k], number_width(matches), glyph_at(matches, k)),
    )
}

/// One line of the legend.
pub open spec fn legend_text(record: RecordView) -> Seq<char> {
    "# "@ + pad_left(record.alias, ALIAS_WIDTH as nat) + " = "@ + record.absolute_path
}

/// The legend: one line per tracked file, in alias order.
pub open spec fn legend_lines(reg: Seq<RecordView>) -> Seq<Seq<char>> {
    Seq::new(reg.len(), |i: int| legend_text(reg[i]))
}

/// All lines of the buffer.
pub open spec fn buffer_lines(
    label: Seq<char>,
    matches: Seq<MatchLineView>,
    reg: Seq<RecordView>,
) -> Seq<Seq<char>> {
    header_lines(label) + data_lines(matches) + legend_head() + legend_lines(reg)
}

/// The buffer: every line followed by a line feed.
pub open spec fn render_text(
    label: Seq<char>,
    matches: Seq<MatchLineView>,
    reg: Seq<RecordView>,
) -> Seq<char> {
    unlines(buffer_lines(label, matches, reg))
}

/// Ends the line that was appended after the lines `done`.
fn end_line(out: &mut Vec<char>, Ghost(done): Ghost<Seq<Seq<char>>>, Ghost(line): Ghost<Seq<char>>)
    requires
        old(out)@ == unlines(done) + line,
    ensures
        final(out)@ == unlines(done.push(line)),
{
    out.push('\n');
    proof {
        let all = done.push(line);
        assert(all.drop_last() =~= done);
        assert(all.last() == line);
        assert(out@ =~= unlines(done) + line + seq!['\n']);
    }
}

/// Appends `line` as one more line.
fn put_line(out: &mut Vec<char>, line: &str, Ghost(done): Ghost<Seq<Seq<char>>>)
    requires
        old(out)@ == unlines(done),
    ensures
        final(out)@ == unlines(done.push(line@)),
{
    append_str(out, line);
    end_line(out, Ghost(done), Ghost(line@));
}

/// The width of the number column.
fn column_width(match_lines: &Vec<MatchLine>) -> (w: usize)
    ensures
        w == number_width(match_lines_view(match_lines@)),
        1 <= w <= 20,
{
    let ghost matches = match_lines_view(match_lines@);
    let mut w: usize = 1;
    let mut k: usize = 0;
    while k < match_lines.len()
        invariant
            k <= match_lines@.len(),
            matches == match_lines_view(match_lines@),
            1 <= w <= 20,
            w == width_upto(matches, k as nat),
        decreases match_lines.len() - k,
    {
        let here: usize = digit_count(match_lines[k].line_number);
        assert(matches[k as int].line_number == match_lines@[k as int].line_number);
        if here > w {
            w = here;
        }
        k += 1;
    }
    w
}

/// Writes the virtual buffer.
///
/// `label` names the session in the header. Every match line gives one data
/// line, in the given order; the files of the registry give the legend.
pub fn render(label: &str, match_lines: &Vec<MatchLine>, registry: &FileRegistry) -> (text: String)
    ensures
        text@ == render_text(label@, match_lines_view(match_lines@), registry@),
{
    let ghost matches = match_lines_view(match_lines@);
    let ghost reg = registry@;
    let mut out: Vec<char> = Vec::new();
    let ghost mut done: Seq<Seq<char>> = Seq::empty();
    assert(out@ =~= unlines(done));

    put_line(&mut out, "# okapi – bulk editing buffer", Ghost(done));
    proof {
        done = done.push("# okapi – bulk editing buffer"@);
    }
    append_str(&mut out, "# ");
    append_str(&mut out, label);
    assert(out@ =~= unlines(done) + ("# "@ + label@));
    end_line(&mut out, Ghost(done), Ghost("# "@ + label@));
    proof {
        done = done.push("# "@ + label@);
    }
    put_line(&mut out, "#", Ghost(done));
    proof {
        done = done.push("#"@);
    }
    put_line(&mut out, "# - Save and close to apply changes.", Ghost(done));
    proof {
        done = done.push("# - Save and close to apply changes."@);
    }
    put_line(&mut out, "# - Unchanged lines and those starting with '#' are ignored.", Ghost(done));
    proof {
        done = done.push("# - Unchanged lines and those starting with '#' are ignored."@);
    }
    put_line(
        &mut out,
        "# - Delete everything after the shade block (▓) to remove a line.",
        Ghost(done),
    );
    proof {
        done = done.push("# - Delete everything after the shade block (▓) to remove a line."@);
    }
    put_line(&mut out, "#", Ghost(done));
    proof {
        done = done.push("#"@);
    }
    put_line(&mut out, "# --- Begin editable lines ---", Ghost(done));
    proof {
        done = done.push("# --- Begin editable lines ---"@);
    }
    assert(out@ =~= unlines(done) + Seq::<char>::empty());
    end_line(&mut out, Ghost(done), Ghost(Seq::<char>::empty()));
    proof {
        done = done.push(Seq::<char>::empty());
        assert(done =~= header_lines(label@));
    }

    let width: usize = column_width(match_lines);
    let mut heavy: bool = true;
    let mut k: usize = 0;
    proof {
        assert(done =~= header_lines(label@) + data_lines(matches).take(0));
    }
    while k < match_lines.len()
        invariant
            k <= match_lines@.len(),
            matches == match_lines_view(match_lines@),
            width == number_width(matches),
            out@ == unlines(done),
            done == header_lines(label@) + data_lines(matches).take(k as int),
            k > 0 ==> heavy == heavy_at(matches, k - 1),
            k == 0 ==> heavy,
        decreases match_lines.len() - k,
    {
        let m = &match_lines[k];
        let alias: FileAlias = m.alias;
        assert(matches[k as int] == m@);
        if k > 0 {
            let prev: FileAlias = match_lines[k - 1].alias;
            assert(matches[k - 1].alias == prev@);
            proof {
                use_type_invariant(&alias);
                use_type_invariant(&prev);
                if alias@ == prev@ {
                    alias.lemma_equal_by_text(prev);
                }
            }
            if alias != prev {
                heavy = !heavy;
            }
        }
        assert(heavy == heavy_at(matches, k as int));
        let glyph: char = if heavy {
            HEAVY_GLYPH
        } else {
            LIGHT_GLYPH
        };
        let ghost line = data_text(m@, width as nat, glyph);
        let ghost start = out@;
        let letters = alias.letters();
        append_padded(&mut out, letters.as_slice(), ALIAS_WIDTH);
        out.push(' ');
        let mut number: Vec<char> = Vec::new();
        append_decimal(&mut number, m.line_number);
        assert(number@ =~= decimal(m.line_number as nat));
        append_padded(&mut out, number.as_slice(), width);
        out.push(' ');
        out.push(glyph);
        out.push(' ');
        append_str(&mut out, m.original_content.as_str());
        assert(out@ =~= start + line);
        end_line(&mut out, Ghost(done), Ghost(line));
        proof {
            let next = data_lines(matches).take(k + 1);
            assert(next =~= data_lines(matches).take(k as int).push(line));
            assert(done.push(line) =~= header_lines(label@) + next);
            done = done.push(line);
        }
        k += 1;
    }
    proof {
        assert(data_lines(matches).take(match_lines@.len() as int) =~= data_lines(matches));
    }

    assert(out@ =~= unlines(done) + Seq::<char>::empty());
    end_line(&mut out, Ghost(done), Ghost(Seq::<char>::empty()));
    proof {
        done = done.push(Seq::<char>::empty());
    }
    put_line(&mut out, "# --- File Aliases ---", Ghost(done));
    proof {
        done = done.push("# --- File Aliases ---"@);
        assert(done =~= header_lines(label@) + data_lines(matches) + legend_head() + legend_lines(
            reg,
        ).take(0));
    }

    let count: usize = registry.len();
    let mut i: usize = 0;
    while i < count
        invariant
            i <= count,
            count == registry@.len(),
            reg == registry@,
            out@ == unlines(done),
            done == header_lines(label@) + data_lines(matches) + legend_head() + legend_lines(
                reg,
            ).take(i as int),
        decreases count - i,
    {
        let record = registry.record(i);
        let ghost line = legend_text(record@);
        let ghost start = out@;
        append_str(&mut out, "# ");
        let letters = record.alias.letters();
        append_padded(&mut out, letters.as_slice(), ALIAS_WIDTH);
        append_str(&mut out, " = ");
        append_str(&mut out, record.absolute_path.as_str());
        assert(out@ =~= start + line);
        end_line(&mut out, Ghost(done), Ghost(line));
        proof {
            let next = legend_lines(reg).take(i + 1);
            assert(next =~= legend_lines(reg).take(i as int).push(line));
            assert(done.push(line) =~= header_lines(label@) + data_lines(matches) + legend_head()
                + next);
            done = done.push(line);
        }
        i += 1;
    }
    proof {
        assert(legend_lines(reg).take(count as int) =~= legend_lines(reg));
    }
    string_of(out.as_slice())
}

} // verus!

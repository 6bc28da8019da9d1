//! The command lines of the two helpers of a session: the editor that the
//! buffer is handed to, and the search tool that finds the matches.

use crate::scan::sub_chars;
use crate::text::{chars_of, is_space, is_space_char, lines_view, string_of};
use vstd::prelude::*;

verus! {

/// The views of a vector of strings.
pub open spec fn strings_view(v: Seq<String>) -> Seq<Seq<char>> {
    Seq::new(v.len(), |i: int| v[i]@)
}

// ---------------------------------------------------------------------------
// Words
// ---------------------------------------------------------------------------

/// Where the word that starts at `from` ends: at the next whitespace, or at
/// the end of the text.
pub open spec fn word_end(s: Seq<char>, from: int) -> int
    decreases s.len() - from,
{
    if 0 <= from < s.len() && !is_space(s[from]) {
        word_end(s, from + 1)
    } else {
        from
    }
}

/// The words of `s` from position `from` on: the longest stretches without
/// whitespace, in their order.
pub open spec fn words_from(s: Seq<char>, from: int) -> Seq<Seq<char>>
    decreases s.len() - from,
{
    if from < 0 || from >= s.len() {
        Seq::empty()
    } else if is_space(s[from]) {
        words_from(s, from + 1)
    } else {
        let end = word_end(s, from);
        if from < end <= s.len() {
            seq![s.subrange(from, end)] + words_from(s, end)
        } else {
            Seq::empty()
        }
    }
}

/// The words of `s`.
pub open spec fn words(s: Seq<char>) -> Seq<Seq<char>> {
    words_from(s, 0)
}

/// A word ends where the first whitespace after its start stands.
proof fn lemma_word_end(s: Seq<char>, from: int, to: int)
    requires
        0 <= from <= to <= s.len(),
        forall|k: int| from <= k < to ==> !is_space(#[trigger] s[k]),
        to == s.len() || is_space(s[to]),
    ensures
        word_end(s, from) == to,
    decreases to - from,
{
    if from < to {
        assert(!is_space(s[from]));
        lemma_word_end(s, from + 1, to);
    }
}

/// Splits a text into its words.
pub fn split_words(text: &[char]) -> (out: Vec<Vec<char>>)
    ensures
        lines_view(out@) == words(text@),
{
    let mut out: Vec<Vec<char>> = Vec::new();
    let mut i: usize = 0;
    assert(lines_view(out@) + words_from(text@, 0) =~= words(text@));
    while i < text.len()
        invariant
            i <= text@.len(),
            lines_view(out@) + words_from(text@, i as int) == words(text@),
        decreases text.len() - i,
    {
        if is_space_char(text[i]) {
            i += 1;
        } else {
            let mut end: usize = i + 1;
            while end < text.len() && !is_space_char(text[end])
                invariant
                    i < end <= text@.len(),
                    forall|k: int| i <= k < end ==> !is_space(#[trigger] text@[k]),
                decreases text.len() - end,
            {
                end += 1;
            }
            proof {
                lemma_word_end(text@, i as int, end as int);
            }
            let ghost before = lines_view(out@);
            let word = sub_chars(text, i, end);
            out.push(word);
            assert(lines_view(out@) =~= before.push(text@.subrange(i as int, end as int)));
            assert(before.push(text@.subrange(i as int, end as int)) + words_from(text@, end as int)
                =~= before + (seq![text@.subrange(i as int, end as int)] + words_from(
                text@,
                end as int,
            )));
            i = end;
        }
    }
    assert(lines_view(out@) + Seq::<Seq<char>>::empty() =~= lines_view(out@));
    out
}

// ---------------------------------------------------------------------------
// The editor
// ---------------------------------------------------------------------------

/// A program and its arguments.
#[derive(Clone, Debug, PartialEq, Eq)]
pub struct CommandLine {
    pub program: String,
    pub arguments: Vec<String>,
}

/// The editor to use: the one asked for, else the one of the environment, else
/// `vim`.
pub open spec fn chosen_editor(asked: Option<Seq<char>>, environment: Option<Seq<char>>) -> Seq<
    char,
> {
    match asked {
        Some(editor) => editor,
        None => match environment {
            Some(editor) => editor,
            None => "vim"@,
        },
    }
}

/// The view of an optional string.
pub open spec fn optional_view(s: Option<&str>) -> Option<Seq<char>> {
    match s {
        Some(text) => Some(text@),
        None => None,
    }
}

/// Chooses the editor.
pub fn choose_editor(asked: Option<&str>, environment: Option<&str>) -> (editor: String)
    ensures
        editor@ == chosen_editor(optional_view(asked), optional_view(environment)),
{
    match asked {
        Some(editor) => editor.to_owned(),
        None => match environment {
            Some(editor) => editor.to_owned(),
            None => "vim".to_owned(),
        },
    }
}

/// The command that opens `path` in the editor: the first word of `editor` is
/// the program, its other words and then the path are the arguments. An editor
/// without a word gives no command.
pub fn editor_command(editor: &str, path: &str) -> (r: Option<CommandLine>)
    ensures
        r is None <==> words(editor@).len() == 0,
        r matches Some(c) ==> c.program@ == words(editor@)[0] && strings_view(c.arguments@)
            == words(editor@).skip(1).push(path@),
{
    let chars = chars_of(editor);
    let parts = split_words(chars.as_slice());
    if parts.len() == 0 {
        return None;
    }
    let ghost all = words(editor@);
    let program = string_of(parts[0].as_slice());
    let mut arguments: Vec<String> = Vec::new();
    let mut i: usize = 1;
    assert(strings_view(arguments@) =~= all.subrange(1, 1));
    while i < parts.len()
        invariant
            1 <= i <= parts@.len(),
            all == lines_view(parts@),
            strings_view(arguments@) == all.subrange(1, i as int),
        decreases parts.len() - i,
    {
        let ghost before = strings_view(arguments@);
        let word = string_of(parts[i].as_slice());
        arguments.push(word);
        assert(strings_view(arguments@) =~= before.push(all[i as int]));
        assert(all.subrange(1, i + 1) =~= all.subrange(1, i as int).push(all[i as int]));
        i += 1;
    }
    let ghost before = strings_view(arguments@);
    arguments.push(path.to_owned());
    assert(strings_view(arguments@) =~= before.push(path@));
    assert(all.subrange(1, all.len() as int) =~= all.skip(1));
    Some(CommandLine { program, arguments })
}

// ---------------------------------------------------------------------------
// The search tool
// ---------------------------------------------------------------------------

/// The arguments of the search: numbered lines with columns and without
/// headings, the pattern, the paths, the switch for ignoring case if asked
/// for, and whatever else was given.
pub open spec fn search_arguments_of(
    pattern: Seq<char>,
    paths: Seq<Seq<char>>,
    ignore_case: bool,
    extra: Seq<Seq<char>>,
) -> Seq<Seq<char>> {
    seq!["-n"@, "--ignore-files"@, "--column"@, "--no-heading"@, pattern] + paths + (
    if ignore_case {
        seq!["--ignore-case"@]
    } else {
        Seq::empty()
    }) + extra
}

/// Appends copies of the strings of `from` to `out`.
fn append_strings(out: &mut Vec<String>, from: &Vec<String>)
    ensures
        strings_view(final(out)@) == strings_view(old(out)@) + strings_view(from@),
{
    let ghost start = strings_view(out@);
    let mut i: usize = 0;
    assert(start + strings_view(from@).take(0) =~= start);
    while i < from.len()
        invariant
            i <= from@.len(),
            strings_view(out@) == start + strings_view(from@).take(i as int),
        decreases from.len() - i,
    {
        let ghost before = strings_view(out@);
        let s = from[i].clone();
        out.push(s);
        assert(strings_view(out@) =~= before.push(from@[i as int]@));
        assert(strings_view(from@).take(i + 1) =~= strings_view(from@).take(i as int).push(
            from@[i as int]@,
        ));
        i += 1;
    }
    assert(strings_view(from@).take(from@.len() as int) =~= strings_view(from@));
}

/// Puts the arguments of the search together.
pub fn search_arguments(
    pattern: &str,
    paths: &Vec<String>,
    ignore_case: bool,
    extra: &Vec<String>,
) -> (arguments: Vec<String>)
    ensures
        strings_view(arguments@) == search_arguments_of(
            pattern@,
            strings_view(paths@),
            ignore_case,
            strings_view(extra@),
        ),
{
    let mut arguments: Vec<String> = Vec::new();
    arguments.push("-n".to_owned());
    arguments.push("--ignore-files".to_owned());
    arguments.push("--column".to_owned());
    arguments.push("--no-heading".to_owned());
    arguments.push(pattern.to_owned());
    assert(strings_view(arguments@) =~= seq![
        "-n"@,
        "--ignore-files"@,
        "--column"@,
        "--no-heading"@,
        pattern@,
    ]);
    append_strings(&mut arguments, paths);
    if ignore_case {
        let ghost before = strings_view(arguments@);
        arguments.push("--ignore-case".to_owned());
        assert(strings_view(arguments@) =~= before + seq!["--ignore-case"@]);
    } else {
        assert(strings_view(arguments@) + Seq::<Seq<char>>::empty() =~= strings_view(arguments@));
    }
    append_strings(&mut arguments, extra);
    arguments
}

/// The exit code with which a session ends after a failed search, if it ends:
/// a search that succeeded, or that ended with code 1 because it found
/// nothing, lets the session go on; every other end of the search ends the
/// session with the search's code, or with 1 if it has none.
pub open spec fn search_exit_of(success: bool, code: Option<i32>) -> Option<i32> {
    if success || code == Some(1i32) {
        None
    } else {
        match code {
            Some(c) => Some(c),
            None => Some(1i32),
        }
    }
}

/// Decides whether the end of the search ends the session.
pub fn search_exit(success: bool, code: Option<i32>) -> (r: Option<i32>)
    ensures
        r == search_exit_of(success, code),
{
    if success {
        return None;
    }
    match code {
        Some(c) => {
            if c == 1 {
                None
            } else {
                Some(c)
            }
        },
        None => Some(1),
    }
}

} // verus!

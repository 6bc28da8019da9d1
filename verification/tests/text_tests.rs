use okapi::parser::{decide_line, Decision, Outcome};
use okapi::reconcile::{line_status, LineStatus};
use okapi::registry::{FileRegistry, LoadedFile, Timestamp};
use okapi::scan::{count_glyphs, is_glyph_char, parse_number, span, sub_chars, CharClass};
use okapi::text::{
    append_chars, append_decimal, append_joined, append_padded, append_spaces, append_str, blank,
    chars_equal, chars_of, copy_chars, digit_count, ends_with_newline, is_space_char, string_of,
};
use okapi::{FileAlias, MatchLine};

fn chars(s: &str) -> Vec<char> {
    s.chars().collect()
}

#[test]
fn whitespace_is_that_of_unicode() {
    for code in 0..=0x10FFFFu32 {
        if let Some(c) = char::from_u32(code) {
            assert_eq!(is_space_char(c), c.is_whitespace(), "{:x}", code);
        }
    }
}

#[test]
fn blank_means_whitespace_only() {
    assert!(blank(&chars("")));
    assert!(blank(&chars(" \t\r\n\u{2028}")));
    assert!(!blank(&chars("  x ")));
    assert!(!blank(&chars("\u{200b}")));
}

#[test]
fn strings_and_characters_convert_both_ways() {
    for text in ["", "a", "▓ é\n\u{1f600}"] {
        assert_eq!(chars_of(text), chars(text));
        assert_eq!(string_of(&chars(text)), text);
        assert_eq!(copy_chars(&chars(text)), chars(text));
    }
    let mut out = chars("ab");
    append_str(&mut out, "cd");
    append_chars(&mut out, &['e']);
    append_spaces(&mut out, 2);
    assert_eq!(string_of(&out), "abcde  ");
}

#[test]
fn characters_compare_by_content() {
    assert!(chars_equal(&chars(""), &chars("")));
    assert!(chars_equal(&chars("abc"), &chars("abc")));
    assert!(!chars_equal(&chars("abc"), &chars("abd")));
    assert!(!chars_equal(&chars("abc"), &chars("ab")));
}

#[test]
fn numbers_are_written_in_decimal() {
    for (n, text) in [(0usize, "0"), (7, "7"), (10, "10"), (18278, "18278"), (usize::MAX, "")] {
        let expected = if text.is_empty() { n.to_string() } else { text.to_string() };
        let mut out = Vec::new();
        append_decimal(&mut out, n);
        assert_eq!(string_of(&out), expected);
        assert_eq!(digit_count(n), expected.len());
    }
    assert_eq!(digit_count(9), 1);
    assert_eq!(digit_count(99), 2);
    assert_eq!(digit_count(100), 3);
}

#[test]
fn padding_aligns_to_the_right() {
    let mut out = Vec::new();
    append_padded(&mut out, &chars("A"), 3);
    append_padded(&mut out, &chars("ABC"), 3);
    append_padded(&mut out, &chars("ABCD"), 3);
    append_padded(&mut out, &chars(""), 0);
    assert_eq!(string_of(&out), "  AABCABCD");
}

#[test]
fn lines_are_joined_by_line_feeds() {
    let mut out = chars(">");
    append_joined(&mut out, &vec![chars("a"), chars(""), chars("c")]);
    assert_eq!(string_of(&out), ">a\n\nc");
    let mut out = Vec::new();
    append_joined(&mut out, &Vec::new());
    assert!(out.is_empty());
    assert!(ends_with_newline(&chars("a\n")));
    assert!(!ends_with_newline(&chars("a")));
    assert!(!ends_with_newline(&chars("")));
}

#[test]
fn runs_and_glyphs_are_counted() {
    let line = chars("  AB 12 ▓ x");
    assert_eq!(span(&line, 0, CharClass::Space), 2);
    assert_eq!(span(&line, 2, CharClass::Upper), 4);
    assert_eq!(span(&line, 5, CharClass::Digit), 7);
    assert_eq!(span(&line, 5, CharClass::Upper), 5);
    assert_eq!(span(&line, line.len(), CharClass::Space), line.len());
    assert_eq!(sub_chars(&line, 2, 4), chars("AB"));
    assert_eq!(count_glyphs(&line), 1);
    assert_eq!(count_glyphs(&chars("░▓░")), 3);
    assert!(is_glyph_char('░') && is_glyph_char('▓') && !is_glyph_char('▒'));
    assert_eq!(parse_number(&chars("0042")), Some(42));
    assert_eq!(parse_number(&chars("")), Some(0));
}

#[test]
fn three_texts_give_the_status_of_a_line() {
    let s = |disk: &str, original: &str, wanted: &str| {
        line_status(&chars(disk), &chars(original), &chars(wanted))
    };
    assert_eq!(s("b", "b", "B"), LineStatus::Pending);
    assert_eq!(s("B", "b", "B"), LineStatus::Satisfied);
    assert_eq!(s("BB", "b", "B"), LineStatus::Conflict);
    assert_eq!(s("b", "b", "b"), LineStatus::Satisfied);
    assert_eq!(s("", "", ""), LineStatus::Satisfied);
    assert_eq!(s("", "b", "B"), LineStatus::Conflict);
}

#[test]
fn data_lines_are_held_against_the_registry() {
    let mut registry = FileRegistry::new();
    registry.register(LoadedFile {
        display_path: "x".to_string(),
        absolute_path: "/x".to_string(),
        content: "a\nb\n".to_string(),
        mtime: Timestamp { secs: 0, nanos: 0 },
    });
    let d = |alias: &str, line: usize, content: &str| {
        decide_line(&registry, &chars(alias), line, &chars(content))
    };
    assert_eq!(d("B", 1, "x"), Decision::UnknownAlias);
    assert_eq!(d("", 1, "x"), Decision::UnknownAlias);
    assert_eq!(d("A", 0, "x"), Decision::OutOfRange);
    assert_eq!(d("A", 3, "x"), Decision::OutOfRange);
    assert_eq!(d("A", 2, "b"), Decision::Unchanged);
    assert_eq!(d("A", 2, " "), Decision::Edit { file: 0, outcome: Outcome::Delete });
    assert_eq!(
        d("A", 1, "a "),
        Decision::Edit { file: 0, outcome: Outcome::Replace("a ".to_string()) }
    );
}

#[test]
fn main_items_are_at_hand_at_the_root() {
    let alias = FileAlias::from_str("A");
    let m = MatchLine { alias, line_number: 1, original_content: "x".to_string() };
    let text = okapi::render("l", &vec![m], &FileRegistry::new());
    assert!(text.contains("\n  A 1 ▓ x\n"));
    assert_eq!(okapi::ALIAS_COUNT, 18278);
}

use okapi::discovery::{
    column_allowed, expand_column_range, has_short_numbers, judge_search_line, parse_column_range,
    parse_list_line, parse_unsigned, split_search_line, trimmed, ColumnRangeError, ListLine,
    SearchFields, SearchVerdict,
};
use camino::Utf8Path;
use okapi::paths::{path_at_most, paths_same};
use okapi::registry::{assign_aliases, FileRegistry, LoadedFile, Timestamp};

fn chars(s: &str) -> Vec<char> {
    s.chars().collect()
}

fn file(display: &str, absolute: &str, content: &str) -> LoadedFile {
    LoadedFile {
        display_path: display.to_string(),
        absolute_path: absolute.to_string(),
        content: content.to_string(),
        mtime: Timestamp { secs: 0, nanos: 0 },
    }
}

#[test]
fn test_column_range_expansion() {
    // Standard range
    assert_eq!(parse_column_range("1..3").unwrap(), vec![1, 2, 3]);

    // Shorthand start
    let start = parse_column_range("..3").unwrap();
    assert_eq!(start, vec![1, 2, 3]);

    // Shorthand end
    let end = parse_column_range("198..").unwrap();
    assert_eq!(end, vec![198, 199, 200]);

    // Multiple ranges
    let multi = parse_column_range("1..2;5..6").unwrap();
    assert_eq!(multi, vec![1, 2, 5, 6]);
}

#[test]
fn test_invalid_range() {
    assert!(parse_column_range("abc").is_err());
}

#[test]
fn column_range_errors_say_why() {
    assert_eq!(parse_column_range("abc"), Err(ColumnRangeError::Invalid));
    assert_eq!(parse_column_range("3..1"), Err(ColumnRangeError::Invalid));
    assert_eq!(parse_column_range(""), Err(ColumnRangeError::Invalid));
    assert_eq!(parse_column_range("1..1000000000"), Err(ColumnRangeError::NumberTooLong));
    assert_eq!(parse_column_range("0000000001"), Err(ColumnRangeError::NumberTooLong));
    assert_eq!(parse_column_range("999999999").unwrap(), vec![999999999]);
    assert_eq!(parse_column_range("1000000").unwrap(), vec![1000000]);
    assert_eq!(parse_column_range("0000001").unwrap(), vec![1]);
    assert_eq!(parse_column_range("999998..1000001").unwrap(), vec![999998, 999999, 1000000, 1000001]);
    assert_eq!(parse_column_range("7; 9 ..11").unwrap(), vec![7, 9, 10, 11]);
}

#[test]
fn column_range_ends_are_closed() {
    assert_eq!(expand_column_range("1..3"), "1..3");
    assert_eq!(expand_column_range("..3"), "1..3");
    assert_eq!(expand_column_range("198.."), "198..200");
    assert_eq!(expand_column_range(".."), "1..200");
    assert_eq!(expand_column_range("."), ".");
    assert_eq!(expand_column_range(""), "");
    assert_eq!(parse_column_range("..").unwrap().len(), 200);
}

#[test]
fn short_numbers_are_told_from_long_ones() {
    assert!(has_short_numbers(""));
    assert!(has_short_numbers("123456789;123456..987654321"));
    assert!(!has_short_numbers("1234567890"));
    assert!(!has_short_numbers("1;2..1234567890;3"));
}

#[test]
fn columns_are_looked_up_in_the_list() {
    assert!(column_allowed(&vec![1, 2, 3], 2));
    assert!(!column_allowed(&vec![1, 2, 3], 4));
    assert!(!column_allowed(&Vec::new(), 1));
}

#[test]
fn list_lines_are_path_colon_number() {
    assert_eq!(
        parse_list_line("target.txt:1"),
        ListLine::Request { path: "target.txt".to_string(), line_number: 1 }
    );
    assert_eq!(
        parse_list_line("  /a b/c:d.rs:42 \t"),
        ListLine::Request { path: "/a b/c:d.rs".to_string(), line_number: 42 }
    );
    assert_eq!(
        parse_list_line(":+7"),
        ListLine::Request { path: String::new(), line_number: 7 }
    );
    assert_eq!(parse_list_line(""), ListLine::Skip);
    assert_eq!(parse_list_line("   "), ListLine::Skip);
    assert_eq!(parse_list_line("# a:1"), ListLine::Skip);
    assert_eq!(parse_list_line("  #"), ListLine::Skip);
    assert_eq!(parse_list_line("no separator"), ListLine::MissingColon);
    assert_eq!(parse_list_line("a:"), ListLine::BadNumber);
    assert_eq!(parse_list_line("a:x"), ListLine::BadNumber);
    assert_eq!(parse_list_line("a:-1"), ListLine::BadNumber);
    assert_eq!(parse_list_line("a: 1"), ListLine::BadNumber);
    assert_eq!(parse_list_line("a:99999999999999999999999"), ListLine::BadNumber);
}

#[test]
fn numbers_read_like_unsigned_integers() {
    for text in ["0", "7", "+7", "007", "+", "", "-7", "7a", " 7", "++7", "18446744073709551615", "18446744073709551616", "٣"] {
        assert_eq!(parse_unsigned(&chars(text)), text.parse::<usize>().ok(), "{:?}", text);
    }
}

#[test]
fn trimming_is_that_of_strings() {
    for text in ["", " ", "a", "  a b  ", "\t\u{a0}x\u{2003}\n", "\u{feff}x"] {
        let got: String = trimmed(&chars(text)).into_iter().collect();
        assert_eq!(got, text.trim(), "{:?}", text);
    }
}

#[test]
fn search_lines_split_at_the_first_three_colons() {
    assert_eq!(
        split_search_line("src/a.rs:12:5:let x = y::z;"),
        Some(SearchFields {
            path: "src/a.rs".to_string(),
            line: "12".to_string(),
            column: "5".to_string(),
            content: "let x = y::z;".to_string(),
        })
    );
    assert_eq!(
        split_search_line(":::"),
        Some(SearchFields {
            path: String::new(),
            line: String::new(),
            column: String::new(),
            content: String::new(),
        })
    );
    assert_eq!(split_search_line("a:1:2"), None);
    assert_eq!(split_search_line(""), None);
}

#[test]
fn search_lines_are_judged_in_order() {
    let fields = |line: &str, column: &str| SearchFields {
        path: "p".to_string(),
        line: line.to_string(),
        column: column.to_string(),
        content: "c".to_string(),
    };
    let columns = vec![1, 2, 3];
    assert_eq!(
        judge_search_line(&fields("10", "2"), Some(&columns), false),
        SearchVerdict::Keep { line_number: 10 }
    );
    assert_eq!(
        judge_search_line(&fields("10", "9"), None, false),
        SearchVerdict::Keep { line_number: 10 }
    );
    assert_eq!(judge_search_line(&fields("10", "x"), None, true), SearchVerdict::BadColumn);
    assert_eq!(
        judge_search_line(&fields("x", "9"), Some(&columns), true),
        SearchVerdict::OutsideColumns
    );
    assert_eq!(judge_search_line(&fields("x", "2"), Some(&columns), true), SearchVerdict::Excluded);
    assert_eq!(judge_search_line(&fields("x", "2"), Some(&columns), false), SearchVerdict::BadLine);
}

#[test]
fn paths_are_ordered_by_their_components() {
    let paths = [
        "", "a", "a-b/c", "a/b", "a.c", "a//b", "a/b/", "./a/b", "ab", "b", "é", "z", "/a", "/a/b",
        "a b/c", "a/./b", "a/../b",
    ];
    for a in paths {
        for b in paths {
            let (x, y) = (Utf8Path::new(a), Utf8Path::new(b));
            assert_eq!(path_at_most(a, b), x <= y, "{:?} {:?}", a, b);
            assert_eq!(paths_same(a, b), x == y, "{:?} {:?}", a, b);
        }
    }
    // A directory stands before the names that it is the start of.
    assert!(path_at_most("a/b", "a.c") && !path_at_most("a.c", "a/b"));
    assert!(path_at_most("a/b", "a-b/c") && !path_at_most("a-b/c", "a/b"));
    assert!(paths_same("a//b", "a/b") && paths_same("a/b/", "a/b") && !paths_same("a/b", "a/c"));
}

#[test]
fn aliases_follow_the_display_paths() {
    let files = vec![
        file("src/z.rs", "/w/src/z.rs", "z\n"),
        file("src/a.rs", "/w/src/a.rs", "first\n"),
        file("b.rs", "/w/b.rs", "b\n"),
        file("src/a.rs", "/w/src/a.rs", "second\n"),
    ];
    let registry = assign_aliases(&files);
    assert_eq!(registry.len(), 3);
    let got: Vec<(String, &str, &str)> = (0..registry.len())
        .map(|i| {
            let r = registry.record(i);
            (r.alias.val(), r.display_path.as_str(), r.original_content.as_str())
        })
        .collect();
    assert_eq!(
        got,
        vec![
            ("A".to_string(), "b.rs", "b\n"),
            ("B".to_string(), "src/a.rs", "first\n"),
            ("C".to_string(), "src/z.rs", "z\n"),
        ]
    );
}

#[test]
fn aliases_of_no_files() {
    assert_eq!(assign_aliases(&Vec::new()).len(), 0);
}

#[test]
fn matches_are_ordered_by_path_and_line_and_cut_off() {
    let found = |path: &str, line: usize, content: &str| okapi::discovery::FoundMatch {
        path: path.to_string(),
        line_number: line,
        content: content.to_string(),
    };
    let all = vec![
        found("src/b.rs", 7, "b7"),
        found("src/a.rs", 12, "a12"),
        found("src/b.rs", 2, "b2"),
        found("src/a.rs", 3, "first"),
        found("src/a.rs", 3, "second"),
        found("lib.rs", 100, "l"),
    ];
    let got = okapi::discovery::select_matches(&all, 150);
    let contents: Vec<&str> = got.iter().map(|m| m.content.as_str()).collect();
    assert_eq!(contents, vec!["l", "first", "second", "a12", "b2", "b7"]);
    let cut = okapi::discovery::select_matches(&all, 2);
    assert_eq!(cut, vec![found("lib.rs", 100, "l"), found("src/a.rs", 3, "first")]);
    assert!(okapi::discovery::select_matches(&all, 0).is_empty());
    assert!(okapi::discovery::select_matches(&Vec::new(), 5).is_empty());
}

#[test]
fn aliases_follow_the_order_of_paths_not_of_strings() {
    let files = vec![file("a.c", "/w/a.c", "1\n"), file("a/b", "/w/a/b", "2\n")];
    let registry = assign_aliases(&files);
    assert_eq!(registry.record(0).display_path, "a/b");
    assert_eq!(registry.record(0).alias.val(), "A");
    assert_eq!(registry.record(1).display_path, "a.c");
    assert_eq!(registry.record(1).alias.val(), "B");
}

#[test]
fn the_cut_keeps_the_first_matches_in_the_order_of_paths() {
    let found = |path: &str, line: usize| okapi::discovery::FoundMatch {
        path: path.to_string(),
        line_number: line,
        content: String::new(),
    };
    let all = vec![found("a.c", 1), found("a/b", 9)];
    assert_eq!(okapi::discovery::select_matches(&all, 1), vec![found("a/b", 9)]);
    assert_eq!(okapi::discovery::select_matches(&all, 2), vec![found("a/b", 9), found("a.c", 1)]);
}

#[test]
fn one_file_is_tracked_once_however_its_path_is_written() {
    let mut registry = FileRegistry::new();
    let a = registry.register(file("x", "/w/a/b", "first\n")).unwrap();
    let again = registry.register(file("y", "/w/a//b/", "second\n")).unwrap();
    assert_eq!(a, again);
    assert_eq!(registry.len(), 1);
    assert_eq!(registry.find_path(&"/w//a/b".to_string()), Some(0));
    assert_eq!(registry.find_path(&"/w/a/c".to_string()), None);
    assert_eq!(registry.find_display(&"x".to_string()), Some(0));
    assert_eq!(registry.find_display(&"./x".to_string()), None);
    assert_eq!(registry.find_display(&"y".to_string()), None);
}

#[test]
fn found_matches_get_the_alias_of_their_file() {
    let found = |path: &str, line: usize, content: &str| okapi::discovery::FoundMatch {
        path: path.to_string(),
        line_number: line,
        content: content.to_string(),
    };
    let matches = vec![
        found("src/a.rs", 3, "three"),
        found("src/a.rs", 8, "eight"),
        found("src/b.rs", 1, "one"),
        found("src/gone.rs", 1, "lost"),
        found("src//a.rs", 9, "nine"),
    ];
    let files = vec![
        file("src/a.rs", "/w/src/a.rs", "a\n"),
        file("src/b.rs", "/w/src/b.rs", "b\n"),
        file("src/again.rs", "/w/src/../src/b.rs", "b\n"),
    ];
    let (registry, lines) = okapi::discovery::register_found(&matches, &files);
    assert_eq!(registry.len(), 3);
    let got: Vec<(String, usize, &str)> =
        lines.iter().map(|m| (m.alias.val(), m.line_number, m.original_content.as_str())).collect();
    assert_eq!(
        got,
        vec![
            ("A".to_string(), 3, "three"),
            ("A".to_string(), 8, "eight"),
            ("B".to_string(), 1, "one"),
            ("A".to_string(), 9, "nine"),
        ]
    );
    let (none, nothing) = okapi::discovery::register_found(&matches, &Vec::new());
    assert_eq!(none.len(), 0);
    assert!(nothing.is_empty());
}

#[test]
fn files_beyond_the_last_alias_lose_their_matches() {
    let files: Vec<LoadedFile> =
        (0..18280).map(|n| file(&format!("f{}", n), &format!("/w/f{}", n), "")).collect();
    let matches = vec![
        okapi::discovery::FoundMatch { path: "f18277".to_string(), line_number: 1, content: "kept".to_string() },
        okapi::discovery::FoundMatch { path: "f18278".to_string(), line_number: 1, content: "lost".to_string() },
    ];
    let (registry, lines) = okapi::discovery::register_found(&matches, &files);
    assert_eq!(registry.len(), 18278);
    assert_eq!(lines.len(), 1);
    assert_eq!(lines[0].alias.val(), "ZZZ");
    assert_eq!(lines[0].original_content, "kept");
}

#[test]
fn many_files_are_put_in_order() {
    let files: Vec<LoadedFile> = (0..18300)
        .rev()
        .map(|n| file(&format!("d{:03}/f{:05}", n % 7, n), &format!("/w/f{:05}", n), ""))
        .collect();
    let registry = assign_aliases(&files);
    assert_eq!(registry.len(), 18278);
    assert_eq!(registry.record(0).display_path, "d000/f00000");
    assert_eq!(registry.record(1).display_path, "d000/f00007");
    for i in 1..registry.len() {
        let (a, b) = (&registry.record(i - 1).display_path, &registry.record(i).display_path);
        assert!(Utf8Path::new(a) < Utf8Path::new(b));
    }
    assert_eq!(registry.find_path(&"/w//f00007".to_string()), Some(1));
}

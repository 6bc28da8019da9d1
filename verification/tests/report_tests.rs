use okapi::reconcile::Summary;
use okapi::report::{conflict_report, layout_report, summary_lines, DiffPiece, DiffTag, Segment};
use okapi::scan::{scan_line, LineScan};
use okapi::text::{chars_of, lines_of, string_of};

fn chars(s: &str) -> Vec<char> {
    s.chars().collect()
}

fn piece(tag: DiffTag, text: &str) -> DiffPiece {
    DiffPiece { tag, text: text.to_string() }
}

fn segment(text: &str, marked: bool) -> Segment {
    Segment { text: text.to_string(), marked }
}

fn plain(segments: &[Segment]) -> String {
    segments.iter().map(|s| s.text.as_str()).collect()
}

#[test]
fn report_layout_splits_the_pieces_between_the_two_lines() {
    let pieces = vec![
        piece(DiffTag::Equal, "a"),
        piece(DiffTag::Delete, "b"),
        piece(DiffTag::Insert, "B"),
        piece(DiffTag::Equal, "c"),
    ];
    let report = layout_report(7, &pieces);
    assert_eq!(report.original_prefix, " orig:    7 ░ ");
    assert_eq!(report.attempted_prefix, "okapi:     7 > ░ ");
    assert_eq!(report.original, vec![segment("a", false), segment("b", true), segment("c", false)]);
    assert_eq!(report.attempted, vec![segment("a", false), segment("B", true), segment("c", false)]);
}

#[test]
fn report_number_column_grows_with_the_number() {
    let report = layout_report(123456, &Vec::new());
    assert_eq!(report.original_prefix, " orig: 123456 ░ ");
    assert_eq!(report.attempted_prefix, "okapi:  123456 > ░ ");
    assert!(report.original.is_empty());
    assert!(report.attempted.is_empty());
}

#[test]
fn conflict_report_marks_what_differs() {
    let report = conflict_report(2, "let x = 1;", "let y = 1;");
    assert_eq!(plain(&report.original), "let x = 1;");
    assert_eq!(plain(&report.attempted), "let y = 1;");
    let removed: Vec<&Segment> = report.original.iter().filter(|s| s.marked).collect();
    let added: Vec<&Segment> = report.attempted.iter().filter(|s| s.marked).collect();
    assert_eq!(removed, vec![&segment("x", true)]);
    assert_eq!(added, vec![&segment("y", true)]);
}

#[test]
fn conflict_report_of_equal_texts_marks_nothing() {
    let report = conflict_report(1, "same", "same");
    assert!(report.original.iter().all(|s| !s.marked));
    assert_eq!(report.original, report.attempted);
    assert_eq!(plain(&report.original), "same");
}

#[test]
fn summary_lines_share_one_width() {
    let summary = Summary { changed_lines: 3, changed_files: 2, total_lines: 150, total_files: 12 };
    let (changed, unchanged) = summary_lines(&summary);
    assert_eq!(changed, "  Changed:   3 line(s),   2 file(s)");
    assert_eq!(unchanged, "Unchanged: 147 line(s),  10 file(s)");
}

#[test]
fn summary_of_nothing() {
    let summary = Summary::new(0, 0);
    let (changed, unchanged) = summary_lines(&summary);
    assert_eq!(changed, "  Changed: 0 line(s), 0 file(s)");
    assert_eq!(unchanged, "Unchanged: 0 line(s), 0 file(s)");
}

#[test]
fn scan_tells_the_kinds_of_lines_apart() {
    assert_eq!(scan_line(&chars("# note")), LineScan::Comment);
    assert_eq!(scan_line(&chars("#")), LineScan::Comment);
    assert_eq!(scan_line(&chars("")), LineScan::Blank);
    assert_eq!(scan_line(&chars(" \t\u{3000}")), LineScan::Blank);
    assert_eq!(scan_line(&chars("A 1 ▓ x ░ y")), LineScan::Corrupt);
    assert_eq!(scan_line(&chars("▓▓")), LineScan::Corrupt);
    assert_eq!(scan_line(&chars("hello")), LineScan::Unrecognized);
    assert_eq!(scan_line(&chars(" # indented")), LineScan::Unrecognized);
    assert_eq!(scan_line(&chars("A1 ▓ x")), LineScan::Unrecognized);
    assert_eq!(scan_line(&chars("A 1▓ x")), LineScan::Unrecognized);
    assert_eq!(scan_line(&chars("A 1 ▓x")), LineScan::Unrecognized);
    assert_eq!(scan_line(&chars("A ١ ▓ x")), LineScan::Unrecognized);
    assert_eq!(
        scan_line(&chars("  AB 12 ▓ let x = 1;")),
        LineScan::Data { alias: chars("AB"), line_number: 12, content: chars("let x = 1;") }
    );
    assert_eq!(
        scan_line(&chars("ZZZZ 007 ░")),
        LineScan::Data { alias: chars("ZZZZ"), line_number: 7, content: chars("") }
    );
    assert_eq!(
        scan_line(&chars("A 1 ▓  two spaces")),
        LineScan::Data { alias: chars("A"), line_number: 1, content: chars(" two spaces") }
    );
}

#[test]
fn scan_takes_the_largest_number_and_no_larger() {
    let max = format!("A {} ▓ x", usize::MAX);
    assert_eq!(
        scan_line(&chars(&max)),
        LineScan::Data { alias: chars("A"), line_number: usize::MAX, content: chars("x") }
    );
    let over = format!("A {}0 ▓ x", usize::MAX);
    assert_eq!(scan_line(&chars(&over)), LineScan::Unrecognized);
    let next = format!("A {} ▓ x", usize::MAX as u128 + 1);
    assert_eq!(scan_line(&chars(&next)), LineScan::Unrecognized);
}

#[test]
fn lines_split_like_text_lines() {
    let cases = ["", "a", "a\n", "a\nb", "a\r\nb\r\n", "\n", "\n\n", "a\r", "a\r\r\n", "\r\n", "a\n\nb\n"];
    for case in cases {
        let expected: Vec<String> = case.lines().map(|l| l.to_string()).collect();
        let got: Vec<String> = lines_of(&chars_of(case)).iter().map(|l| string_of(l)).collect();
        assert_eq!(got, expected, "{:?}", case);
    }
}

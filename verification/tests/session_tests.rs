use okapi::buffer::render;
use okapi::parser::{parse, EditPlan, FileEdits, Outcome};
use okapi::reconcile::{reconcile_file, ConflictLine, ReconciliationOutcome, Summary};
use okapi::registry::{build_match_lines, FileRegistry, LineRequest, LoadedFile, MatchLine, Timestamp};

fn loaded(path: &str, content: &str) -> LoadedFile {
    LoadedFile {
        display_path: path.to_string(),
        absolute_path: path.to_string(),
        content: content.to_string(),
        mtime: Timestamp { secs: 1, nanos: 0 },
    }
}

fn registry_of(files: &[(&str, &str)]) -> FileRegistry {
    let mut registry = FileRegistry::new();
    for (path, content) in files {
        registry.register(loaded(path, content)).unwrap();
    }
    registry
}

fn requests(list: &[(&str, usize)]) -> Vec<LineRequest> {
    list.iter()
        .map(|(path, line)| LineRequest { absolute_path: path.to_string(), line_number: *line })
        .collect()
}

fn intents_of(plan: &EditPlan, file: usize, lines: usize) -> Vec<(usize, Outcome)> {
    let edits = plan.edits(file);
    (1..=lines).filter_map(|n| edits.get(n).map(|o| (n, o.clone()))).collect()
}

const X: &str = "/work/x.txt";

#[test]
fn render_writes_the_exact_buffer() {
    let registry = registry_of(&[(X, "a\nb\nc\n")]);
    let matches = build_match_lines(&requests(&[(X, 2)]), &registry);
    let text = render("Regex: b", &matches, &registry);
    let expected = "# okapi – bulk editing buffer\n\
                    # Regex: b\n\
                    #\n\
                    # - Save and close to apply changes.\n\
                    # - Unchanged lines and those starting with '#' are ignored.\n\
                    # - Delete everything after the shade block (▓) to remove a line.\n\
                    #\n\
                    # --- Begin editable lines ---\n\
                    \n\
                    \x20 A 2 ▓ b\n\
                    \n\
                    # --- File Aliases ---\n\
                    #   A = /work/x.txt\n";
    assert_eq!(text, expected);
}

#[test]
fn render_aligns_numbers_and_alternates_glyphs() {
    let ten: String = (1..=12).map(|n| format!("line {}\n", n)).collect();
    let registry = registry_of(&[("/a", &ten), ("/b", "one\ntwo\n"), ("/c", "x\n")]);
    let matches =
        build_match_lines(&requests(&[("/a", 3), ("/a", 11), ("/b", 2), ("/c", 1)]), &registry);
    let text = render("File: list", &matches, &registry);
    let data: Vec<&str> = text.lines().skip(9).take(4).collect();
    assert_eq!(data, vec!["  A  3 ▓ line 3", "  A 11 ▓ line 11", "  B  2 ░ two", "  C  1 ▓ x"]);
    let legend: Vec<&str> = text.lines().skip(15).collect();
    assert_eq!(legend, vec!["#   A = /a", "#   B = /b", "#   C = /c"]);
}

#[test]
fn render_without_matches_has_header_and_legend_only() {
    let registry = FileRegistry::new();
    let text = render("nothing", &Vec::new(), &registry);
    assert_eq!(text.lines().count(), 11);
    assert!(text.ends_with("\n\n# --- File Aliases ---\n"));
}

#[test]
fn unmodified_buffer_gives_no_intents() {
    let registry = registry_of(&[("/a", "alpha\nbeta\ngamma\n"), ("/b", "one\n\ttwo\nthree")]);
    let matches =
        build_match_lines(&requests(&[("/a", 1), ("/a", 3), ("/b", 2), ("/b", 3)]), &registry);
    assert_eq!(matches.len(), 4);
    let text = render("Regex: .", &matches, &registry);
    let plan = parse(&text, &registry);
    assert!(plan.is_empty());
    assert_eq!(plan.recognized(), 4);
    assert_eq!(plan.len(), 2);
}

#[test]
fn accepted_edit_rewrites_the_line() {
    let registry = registry_of(&[(X, "a\nb\nc\n")]);
    let plan = parse("  A 2 ▓ B\n", &registry);
    assert_eq!(plan.recognized(), 1);
    assert_eq!(intents_of(&plan, 0, 3), vec![(2, Outcome::Replace("B".to_string()))]);
    let r = reconcile_file("a\nb\nc\n", "a\nb\nc\n", plan.edits(0));
    assert_eq!(r.outcome, ReconciliationOutcome::Applied("a\nB\nc\n".to_string()));
    assert_eq!(r.changed_lines, 1);
}

#[test]
fn accepted_edit_keeps_a_missing_final_newline() {
    let registry = registry_of(&[(X, "a\nb\nc")]);
    let plan = parse("  A 2 ▓ B\n", &registry);
    let r = reconcile_file("a\nb\nc", "a\nb\nc", plan.edits(0));
    assert_eq!(r.outcome, ReconciliationOutcome::Applied("a\nB\nc".to_string()));
}

#[test]
fn final_newline_follows_the_snapshot_when_the_last_line_goes() {
    let registry = registry_of(&[(X, "a\nb\nc\n")]);
    let plan = parse("A 3 ▓\n", &registry);
    let r = reconcile_file("a\nb\nc\n", "a\nb\nc\n", plan.edits(0));
    assert_eq!(r.outcome, ReconciliationOutcome::Applied("a\nb\n".to_string()));
    let registry = registry_of(&[(X, "a\nb\nc")]);
    let plan = parse("A 3 ▓ C\n", &registry);
    let r = reconcile_file("a\nb\nc", "a\nb\nc", plan.edits(0));
    assert_eq!(r.outcome, ReconciliationOutcome::Applied("a\nb\nC".to_string()));
}

#[test]
fn blanked_line_is_deleted_and_the_rest_moves_up() {
    let registry = registry_of(&[(X, "a\nb\nc\nd\n")]);
    let plan = parse("  A 2 ▓   \n  A 4 ▓ D\n", &registry);
    assert_eq!(
        intents_of(&plan, 0, 4),
        vec![(2, Outcome::Delete), (4, Outcome::Replace("D".to_string()))]
    );
    let r = reconcile_file("a\nb\nc\nd\n", "a\nb\nc\nd\n", plan.edits(0));
    assert_eq!(r.outcome, ReconciliationOutcome::Applied("a\nc\nD\n".to_string()));
    assert_eq!(r.changed_lines, 2);
}

#[test]
fn glyph_without_anything_after_it_deletes() {
    let registry = registry_of(&[(X, "a\nb\nc\n")]);
    let plan = parse("A 1 ░", &registry);
    assert_eq!(intents_of(&plan, 0, 3), vec![(1, Outcome::Delete)]);
}

#[test]
fn external_change_of_the_line_is_a_conflict() {
    let registry = registry_of(&[(X, "a\nb\nc\n")]);
    let plan = parse("  A 2 ▓ B\n", &registry);
    let r = reconcile_file("a\nb\nc\n", "a\nBB\nc\n", plan.edits(0));
    assert_eq!(
        r.outcome,
        ReconciliationOutcome::Conflict(vec![ConflictLine {
            line_number: 2,
            original: "b".to_string(),
            attempted: "B".to_string(),
        }])
    );
    assert_eq!(r.changed_lines, 0);
}

#[test]
fn one_conflict_stops_the_other_edits_of_the_file() {
    let registry = registry_of(&[(X, "a\nb\nc\n")]);
    let plan = parse("A 1 ▓ A\nA 2 ▓ B\nA 3 ▓\n", &registry);
    let r = reconcile_file("a\nb\nc\n", "a\nb\nsee\n", plan.edits(0));
    assert_eq!(
        r.outcome,
        ReconciliationOutcome::Conflict(vec![ConflictLine {
            line_number: 3,
            original: "c".to_string(),
            attempted: String::new(),
        }])
    );
    assert_eq!(r.changed_lines, 0);
}

#[test]
fn edit_that_is_already_on_disk_needs_no_write() {
    let registry = registry_of(&[(X, "a\nb\nc\n")]);
    let plan = parse("  A 2 ▓ B\n", &registry);
    let r = reconcile_file("a\nb\nc\n", "a\nB\nc\n", plan.edits(0));
    assert_eq!(r.outcome, ReconciliationOutcome::NoOp);
    assert_eq!(r.changed_lines, 1);
    let mut summary = Summary::new(plan.recognized(), registry.len());
    summary.record(&r);
    assert_eq!(summary.changed_lines, 1);
    assert_eq!(summary.changed_files, 1);
}

#[test]
fn applying_twice_is_a_no_op_the_second_time() {
    let registry = registry_of(&[(X, "a\nb\nc\n")]);
    let plan = parse("A 1 ▓ first\nA 3 ▓ third\n", &registry);
    let once = reconcile_file("a\nb\nc\n", "a\nb\nc\n", plan.edits(0));
    let text = match once.outcome {
        ReconciliationOutcome::Applied(text) => text,
        other => panic!("{:?}", other),
    };
    assert_eq!(text, "first\nb\nthird\n");
    let again = reconcile_file("a\nb\nc\n", &text, plan.edits(0));
    assert_eq!(again.outcome, ReconciliationOutcome::NoOp);
    assert_eq!(again.changed_lines, 2);
}

#[test]
fn edits_apply_to_the_current_text_of_other_lines() {
    let registry = registry_of(&[(X, "a\nb\nc\n")]);
    let plan = parse("A 2 ▓ B\n", &registry);
    let r = reconcile_file("a\nb\nc\n", "changed\nb\nc\nadded\n", plan.edits(0));
    assert_eq!(r.outcome, ReconciliationOutcome::Applied("changed\nB\nc\nadded\n".to_string()));
}

#[test]
fn untouched_empty_line_is_kept() {
    let registry = registry_of(&[(X, "a\n\nc\n")]);
    let matches = build_match_lines(&requests(&[(X, 1), (X, 2)]), &registry);
    let text = render("label", &matches, &registry).replace("▓ a", "▓ A");
    let plan = parse(&text, &registry);
    assert_eq!(
        intents_of(&plan, 0, 3),
        vec![(1, Outcome::Replace("A".to_string())), (2, Outcome::Delete)]
    );
    let r = reconcile_file("a\n\nc\n", "a\n\nc\n", plan.edits(0));
    assert_eq!(r.outcome, ReconciliationOutcome::Applied("A\n\nc\n".to_string()));
    assert_eq!(r.changed_lines, 2);
}

#[test]
fn pending_edit_of_a_line_that_left_the_disk_is_dropped() {
    let registry = registry_of(&[(X, "a\nb\n\n")]);
    let plan = parse("A 3 ▓ new\n", &registry);
    let r = reconcile_file("a\nb\n\n", "a\nb\n", plan.edits(0));
    assert_eq!(r.outcome, ReconciliationOutcome::Applied("a\nb\n".to_string()));
    assert_eq!(r.changed_lines, 0);
}

#[test]
fn carriage_returns_before_line_feeds_are_not_part_of_lines() {
    let registry = registry_of(&[(X, "a\r\nb\r\nc\r\n")]);
    let plan = parse("A 2 ▓ b\r\nA 3 ▓ C\r\n", &registry);
    assert_eq!(intents_of(&plan, 0, 3), vec![(3, Outcome::Replace("C".to_string()))]);
    let r = reconcile_file("a\r\nb\r\nc\r\n", "a\r\nb\r\nc\r\n", plan.edits(0));
    assert_eq!(r.outcome, ReconciliationOutcome::Applied("a\nb\nC\n".to_string()));
}

#[test]
fn line_with_two_glyphs_is_dropped() {
    let registry = registry_of(&[(X, "a\nb\nc\n")]);
    let plan = parse("  A 1 ▓ a   A 2 ▓ B\n", &registry);
    assert!(plan.is_empty());
    assert_eq!(plan.recognized(), 0);
    let plan = parse("  A 1 ▓ ░\n  A 2 ▓ B\n", &registry);
    assert_eq!(plan.recognized(), 1);
    assert_eq!(intents_of(&plan, 0, 3), vec![(2, Outcome::Replace("B".to_string()))]);
}

#[test]
fn lines_that_cannot_be_used_are_passed_over() {
    let registry = registry_of(&[(X, "a\nb\nc\n")]);
    let text = "# A 1 ▓ comment\n\
                \n\
                some note of the user\n\
                B 1 ▓ unknown alias\n\
                ABCD 1 ▓ no alias is that long\n\
                A 4 ▓ beyond the snapshot\n\
                A 0 ▓ lines start at one\n\
                A 99999999999999999999999999 ▓ no such number\n\
                a 1 ▓ lower case\n\
                A 1 | other separator\n\
                A 1 ▓tight\n\
                A 2 ▓ b\n";
    let plan = parse(text, &registry);
    assert!(plan.is_empty());
    assert_eq!(plan.recognized(), 5);
}

#[test]
fn later_line_wins_for_the_same_file_line() {
    let registry = registry_of(&[(X, "a\nb\nc\n")]);
    let plan = parse("A 2 ▓ first\nA 2 ▓ second\nA 2 ▓ b\n", &registry);
    assert_eq!(plan.recognized(), 3);
    assert_eq!(intents_of(&plan, 0, 3), vec![(2, Outcome::Replace("second".to_string()))]);
}

#[test]
fn whitespace_is_tolerated_around_the_fields() {
    let registry = registry_of(&[(X, "a\nb\nc\n")]);
    let plan = parse("\tA\u{a0}\u{a0}002 \t ░\u{2003} B  \n", &registry);
    assert_eq!(intents_of(&plan, 0, 3), vec![(2, Outcome::Replace(" B  ".to_string()))]);
}

#[test]
fn intents_go_to_the_file_of_the_alias() {
    let registry = registry_of(&[("/a", "1\n2\n"), ("/b", "1\n2\n"), ("/c", "1\n2\n")]);
    let plan = parse("  C 2 ▓ two\n  A 1 ▓\n", &registry);
    assert_eq!(intents_of(&plan, 0, 2), vec![(1, Outcome::Delete)]);
    assert_eq!(intents_of(&plan, 1, 2), vec![]);
    assert!(plan.edits(1).is_empty());
    assert_eq!(intents_of(&plan, 2, 2), vec![(2, Outcome::Replace("two".to_string()))]);
}

#[test]
fn file_edits_refuse_lines_outside_the_file() {
    let mut edits = FileEdits::new(2);
    assert_eq!(edits.capacity(), 2);
    assert!(edits.is_empty());
    assert!(!edits.set(0, Outcome::Delete));
    assert!(!edits.set(3, Outcome::Delete));
    assert!(edits.is_empty());
    assert!(edits.set(2, Outcome::Replace("x".to_string())));
    assert!(edits.set(2, Outcome::Delete));
    assert_eq!(edits.get(2), Some(&Outcome::Delete));
    assert_eq!(edits.get(1), None);
    assert_eq!(edits.get(3), None);
}

#[test]
fn registering_twice_keeps_the_first_snapshot() {
    let mut registry = FileRegistry::new();
    let a = registry.register(loaded("/a", "old\n")).unwrap();
    let b = registry.register(loaded("/b", "b\n")).unwrap();
    let again = registry.register(loaded("/a", "new\n")).unwrap();
    assert_eq!(a.val(), "A");
    assert_eq!(b.val(), "B");
    assert_eq!(again, a);
    assert_eq!(registry.len(), 2);
    assert_eq!(registry.record(0).original_content, "old\n");
    assert_eq!(registry.find(&['B']), Some(1));
    assert_eq!(registry.find(&['C']), None);
    assert_eq!(registry.find_path(&"/b".to_string()), Some(1));
    assert_eq!(registry.find_path(&"/c".to_string()), None);
}

#[test]
fn registry_stops_when_the_aliases_are_used_up() {
    let mut registry = FileRegistry::new();
    for n in 0..18278 {
        let alias = registry.register(loaded(&format!("/f{}", n), "")).unwrap();
        assert_eq!(alias.rank(), Some(n));
    }
    assert!(registry.register(loaded("/one-more", "")).is_none());
    assert_eq!(registry.len(), 18278);
    assert_eq!(registry.register(loaded("/f7", "")).unwrap().val(), "H");
}

#[test]
fn match_lines_come_from_the_snapshot() {
    let registry = registry_of(&[("/a", "one\ntwo\n"), ("/b", "x\ny\nz")]);
    let matches = build_match_lines(
        &requests(&[("/b", 3), ("/a", 2), ("/a", 0), ("/a", 3), ("/nowhere", 1), ("/b", 1)]),
        &registry,
    );
    let got: Vec<(String, usize, &str)> = matches
        .iter()
        .map(|m: &MatchLine| (m.alias.val(), m.line_number, m.original_content.as_str()))
        .collect();
    assert_eq!(
        got,
        vec![("B".to_string(), 3, "z"), ("A".to_string(), 2, "two"), ("B".to_string(), 1, "x")]
    );
}

#[test]
fn summary_counts_files_without_conflict() {
    let registry = registry_of(&[("/a", "a\nb\n"), ("/b", "a\nb\n"), ("/c", "a\nb\n")]);
    let plan = parse("A 1 ▓ x\nA 2 ▓ y\nB 1 ▓ x\nC 2 ▓ b\n", &registry);
    let mut summary = Summary::new(plan.recognized(), registry.len());
    summary.record(&reconcile_file("a\nb\n", "a\nb\n", plan.edits(0)));
    summary.record(&reconcile_file("a\nb\n", "other\nb\n", plan.edits(1)));
    summary.record(&reconcile_file("a\nb\n", "a\nb\n", plan.edits(2)));
    assert_eq!(
        summary,
        Summary { changed_lines: 2, changed_files: 1, total_lines: 4, total_files: 3 }
    );
}

use okapi::command::{choose_editor, editor_command, search_arguments, search_exit, split_words, CommandLine};
use okapi::parser::parse;
use okapi::registry::{FileRegistry, LoadedFile, Timestamp};

fn strings(list: &[&str]) -> Vec<String> {
    list.iter().map(|s| s.to_string()).collect()
}

#[test]
fn words_are_split_at_whitespace() {
    for text in ["", "  ", "vim", " subl  --wait\t-n ", "a\u{a0}b", "one\ntwo"] {
        let chars: Vec<char> = text.chars().collect();
        let got: Vec<String> = split_words(&chars).into_iter().map(|w| w.into_iter().collect()).collect();
        let expected: Vec<String> = text.split_whitespace().map(|w| w.to_string()).collect();
        assert_eq!(got, expected, "{:?}", text);
    }
}

#[test]
fn editor_is_the_one_asked_for_first() {
    assert_eq!(choose_editor(Some("subl --wait"), Some("nano")), "subl --wait");
    assert_eq!(choose_editor(None, Some("nano")), "nano");
    assert_eq!(choose_editor(None, None), "vim");
}

#[test]
fn editor_command_ends_with_the_path() {
    assert_eq!(
        editor_command("subl --wait", "/tmp/edit.txt"),
        Some(CommandLine { program: "subl".to_string(), arguments: strings(&["--wait", "/tmp/edit.txt"]) })
    );
    assert_eq!(
        editor_command("vim", "/tmp/a b.txt"),
        Some(CommandLine { program: "vim".to_string(), arguments: strings(&["/tmp/a b.txt"]) })
    );
    assert_eq!(editor_command("", "/tmp/edit.txt"), None);
    assert_eq!(editor_command(" \t", "/tmp/edit.txt"), None);
}

#[test]
fn search_arguments_come_in_order() {
    assert_eq!(
        search_arguments("fn \\w+", &strings(&["src", "/x/y"]), true, &strings(&["-g", "*.rs"])),
        strings(&[
            "-n",
            "--ignore-files",
            "--column",
            "--no-heading",
            "fn \\w+",
            "src",
            "/x/y",
            "--ignore-case",
            "-g",
            "*.rs"
        ])
    );
    assert_eq!(
        search_arguments("x", &Vec::new(), false, &Vec::new()),
        strings(&["-n", "--ignore-files", "--column", "--no-heading", "x"])
    );
}

#[test]
fn only_a_real_failure_of_the_search_ends_the_session() {
    assert_eq!(search_exit(true, Some(0)), None);
    assert_eq!(search_exit(false, Some(1)), None);
    assert_eq!(search_exit(false, Some(2)), Some(2));
    assert_eq!(search_exit(false, None), Some(1));
    assert_eq!(search_exit(true, None), None);
}

#[test]
fn touched_files_are_those_with_intents() {
    let mut registry = FileRegistry::new();
    for name in ["/a", "/b", "/c", "/d"] {
        registry.register(LoadedFile {
            display_path: name.to_string(),
            absolute_path: name.to_string(),
            content: "1\n2\n".to_string(),
            mtime: Timestamp { secs: 0, nanos: 0 },
        });
    }
    let plan = parse("D 1 ▓ x\nB 2 ▓\nB 1 ▓ 1\nC 1 ▓ 1\n", &registry);
    assert_eq!(plan.touched_files(), vec![1, 3]);
    assert_eq!(parse("", &registry).touched_files(), Vec::<usize>::new());
}

#[test]
fn intents_are_listed_by_alias_and_line() {
    let mut registry = FileRegistry::new();
    for name in ["/a", "/b", "/c"] {
        registry.register(LoadedFile {
            display_path: name.to_string(),
            absolute_path: name.to_string(),
            content: "1\n2\n3\n".to_string(),
            mtime: Timestamp { secs: 0, nanos: 0 },
        });
    }
    let plan = parse("C 3 ▓ three\nA 2 ▓\nC 1 ▓ one\nA 1 ▓ 1\nB 9 ▓ x\n", &registry);
    let got: Vec<(String, usize, okapi::Outcome)> =
        plan.intents().into_iter().map(|e| (e.alias.val(), e.line_number, e.outcome)).collect();
    assert_eq!(
        got,
        vec![
            ("A".to_string(), 2, okapi::Outcome::Delete),
            ("C".to_string(), 1, okapi::Outcome::Replace("one".to_string())),
            ("C".to_string(), 3, okapi::Outcome::Replace("three".to_string())),
        ]
    );
    assert_eq!(plan.edits(2).entries().len(), 2);
    assert!(parse("# nothing\n", &registry).intents().is_empty());
}

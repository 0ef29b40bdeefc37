use diagnostics::{
    build, Diagnostic, FileId, FileInterner, Line, Position, Run, Severity, Span, Style,
};

fn text(runs: &[Run]) -> String {
    let bytes: Vec<u8> = runs.iter().flat_map(|r| r.text.iter().copied()).collect();
    String::from_utf8(bytes).expect("utf-8 output")
}

fn at(offset: usize, line: usize, col: usize) -> Position {
    Position { offset, line, col }
}

fn numbered(files: &mut FileInterner, name: &str, n: usize) -> FileId {
    let mut src = String::new();
    for i in 0..n {
        src.push_str(&format!("line {}\n", i));
    }
    FileId::new(files, name.to_string(), src)
}

#[test]
fn end_to_end_single_label() {
    let mut files = FileInterner::new();
    let f = FileId::new(
        &mut files,
        "a.rs".to_string(),
        "fn main() {\n    let x: i32 = \"a\";\n}\n".to_string(),
    );
    let span = Span { file: f, start: at(16, 1, 4), end: at(21, 1, 9) };
    let d = Diagnostic::new(Severity::Error, Some(5), "type mismatch".to_string()).label(
        Severity::Error,
        Some(span),
        Some("expected i32".to_string()),
    );
    let s = build(&d);
    assert!(s.is_drawable(&files));
    let runs = s.write(&files);
    assert_eq!(
        text(&runs),
        "error[0005]: type mismatch\n --> a.rs\n2 |     let x: i32 = \"a\";\n  |     ^^^^^ expected i32\n"
    );
    assert_eq!(runs[0].style, Style::Level(Severity::Error));
    assert_eq!(runs[0].text, b"error[0005]".to_vec());
    assert_eq!(runs[2].style, Style::Title);
}

#[test]
fn header_without_code_and_long_code() {
    let files = FileInterner::new();
    let d = Diagnostic::new(Severity::Warning, None, "unused".to_string());
    let runs = build(&d).write(&files);
    assert_eq!(text(&runs), "warning: unused\n");
    let d = Diagnostic::new(Severity::Help, Some(12345), "see".to_string());
    assert_eq!(text(&build(&d).write(&files)), "help[12345]: see\n");
    let d = Diagnostic::new(Severity::Bug, Some(42), "boom".to_string());
    assert_eq!(text(&build(&d).write(&files)), "bug[0042]: boom\n");
}

#[test]
fn nested_brackets_render() {
    let mut files = FileInterner::new();
    let f = numbered(&mut files, "f.rs", 12);
    let d = Diagnostic::new(Severity::Error, None, "overlap".to_string())
        .label(Severity::Error, Some(Span { file: f, start: at(14, 2, 0), end: at(59, 8, 3) }), Some("a".to_string()))
        .label(Severity::Error, Some(Span { file: f, start: at(30, 4, 2), end: at(76, 10, 3) }), Some("b".to_string()));
    let s = build(&d);
    assert!(s.is_drawable(&files));
    let expected = [
        "error: overlap\n",
        "  --> f.rs\n",
        " 3 | ╭  line 2\n",
        "...  ╭ \n",
        " 5 | │  line 4\n",
        "   | │┌───^ \n",
        "...  ││\n",
        " 9 | ││ line 8\n",
        "   | └│───^ a\n",
        "...   │\n",
        "11 |  │ line 10\n",
        "   |  └───^ b\n",
    ]
    .concat();
    assert_eq!(text(&s.write(&files)), expected);
}

#[test]
fn overlapping_bars_persist_through_shared_lines() {
    let mut files = FileInterner::new();
    let f = numbered(&mut files, "f.rs", 8);
    let d = Diagnostic::new(Severity::Error, None, "overlap".to_string())
        .label(Severity::Error, Some(Span { file: f, start: at(14, 2, 0), end: at(38, 5, 3) }), Some("a".to_string()))
        .label(Severity::Error, Some(Span { file: f, start: at(23, 3, 2), end: at(45, 6, 3) }), Some("b".to_string()));
    let expected = [
        "error: overlap\n",
        " --> f.rs\n",
        "3 | ╭  line 2\n",
        "4 | │  line 3\n",
        "  | │┌───^ \n",
        "... ││\n",
        "6 | ││ line 5\n",
        "  | └│───^ a\n",
        "7 |  │ line 6\n",
        "  |  └───^ b\n",
    ]
    .concat();
    assert_eq!(text(&build(&d).write(&files)), expected);
}

#[test]
fn gap_between_lines_shows_elision() {
    let mut files = FileInterner::new();
    let f = numbered(&mut files, "g.rs", 45);
    let d = Diagnostic::new(Severity::Warning, None, "gap".to_string())
        .label(Severity::Warning, Some(Span { file: f, start: at(0, 5, 0), end: at(0, 5, 4) }), None)
        .label(Severity::Warning, Some(Span { file: f, start: at(0, 40, 0), end: at(0, 40, 4) }), None);
    let out = text(&build(&d).write(&files));
    let expected = [
        "warning: gap\n",
        "  --> g.rs\n",
        " 6 | line 5\n",
        "   | ~~~~ \n",
        "...  \n",
        "41 | line 40\n",
        "   | ~~~~ \n",
    ]
    .concat();
    assert_eq!(out, expected);
}

#[test]
fn adjacent_lines_have_no_elision() {
    let mut files = FileInterner::new();
    let f = numbered(&mut files, "g.rs", 5);
    let d = Diagnostic::new(Severity::Info, None, "near".to_string())
        .label(Severity::Info, Some(Span { file: f, start: at(0, 1, 0), end: at(0, 1, 1) }), Some("x".to_string()))
        .label(Severity::Info, Some(Span { file: f, start: at(0, 2, 5), end: at(0, 2, 5) }), Some("y".to_string()));
    let out = text(&build(&d).write(&files));
    assert_eq!(out, "info: near\n --> g.rs\n2 | line 1\n  | - x\n3 | line 2\n  |      - y\n");
}

#[test]
fn line_write_draws_one_line() {
    let mut files = FileInterner::new();
    let f = numbered(&mut files, "h.rs", 3);
    let line = Line { idx: 1, annotations: Vec::new() };
    let runs = line.write(&files, f, 3, 0, true);
    assert_eq!(text(&runs), "  2 | line 1\n...   \n");
    assert_eq!(runs[0].style, Style::Gutter);
}

#[test]
fn render_diagnostic_matches_build_and_write() {
    let mut files = FileInterner::new();
    let f = numbered(&mut files, "r.rs", 4);
    let d = Diagnostic::new(Severity::Error, Some(77), "bad".to_string())
        .label(Severity::Error, Some(Span { file: f, start: at(0, 1, 1), end: at(0, 1, 3) }), Some("here".to_string()));
    let direct = text(&build(&d).write(&files));
    let runs = diagnostics::render_diagnostic(&d, &files).expect("renders");
    assert_eq!(text(&runs), direct);
    assert_eq!(direct, "error[0077]: bad\n --> r.rs\n2 | line 1\n  |  ^^ here\n");
}

#[test]
fn render_diagnostic_rejects_bad_labels() {
    let mut files = FileInterner::new();
    let f = numbered(&mut files, "r.rs", 4);
    let backwards = Diagnostic::new(Severity::Error, None, "m".to_string())
        .label(Severity::Error, Some(Span { file: f, start: at(0, 2, 1), end: at(0, 1, 3) }), None);
    assert!(!backwards.is_well_formed());
    assert!(diagnostics::render_diagnostic(&backwards, &files).is_none());
    let elsewhere = Diagnostic::new(Severity::Error, None, "m".to_string())
        .label(Severity::Error, Some(Span { file: FileId(9), start: at(0, 1, 1), end: at(0, 1, 3) }), None);
    assert!(elsewhere.is_well_formed());
    assert!(!elsewhere.points_into(&files));
    assert!(diagnostics::render_diagnostic(&elsewhere, &files).is_none());
    let note_only = Diagnostic::new(Severity::Help, None, "m".to_string())
        .label(Severity::Help, None, Some("a note".to_string()));
    assert_eq!(text(&diagnostics::render_diagnostic(&note_only, &files).unwrap()), "help: m\n");
}

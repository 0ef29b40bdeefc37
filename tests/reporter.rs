use diagnostics::{Diagnostic, FileId, Position, Reporter, Severity, Span};

fn span(line: usize) -> Span {
    Span {
        file: FileId(0),
        start: Position { offset: line * 10, line, col: 0 },
        end: Position { offset: line * 10 + 2, line, col: 2 },
    }
}

fn diag(sev: Severity, code: Option<u16>, line: usize) -> Diagnostic {
    Diagnostic::new(sev, code, format!("at {}", line)).label(sev, Some(span(line)), None)
}

#[test]
fn add_reports_bug_tier() {
    let mut r = Reporter::new();
    assert!(!r.add(diag(Severity::Error, None, 1)));
    assert!(!r.add(diag(Severity::Warning, None, 2)));
    assert!(r.add(diag(Severity::Bug, None, 3)));
    assert_eq!(r.diagnostics().len(), 3);
}

#[test]
fn has_errors_by_tier() {
    let mut r = Reporter::new();
    assert!(!r.has_errors());
    r.add(diag(Severity::Warning, None, 1));
    r.add(diag(Severity::Help, None, 2));
    assert!(!r.has_errors());
    r.add(diag(Severity::Error, None, 3));
    assert!(r.has_errors());
    let mut b = Reporter::new();
    b.add(diag(Severity::Bug, None, 1));
    assert!(b.has_errors());
}

#[test]
fn remove_matches_span_and_code() {
    let mut r = Reporter::new();
    r.add(diag(Severity::Error, Some(7), 1));
    r.add(diag(Severity::Error, Some(8), 1));
    r.add(diag(Severity::Error, Some(7), 2));
    r.add(Diagnostic::new(Severity::Error, Some(7), "no labels".to_string()));
    r.remove(span(1), 7);
    let left: Vec<(Option<u16>, String)> =
        r.diagnostics().iter().map(|d| (d.code, d.message.clone())).collect();
    assert_eq!(
        left,
        vec![
            (Some(8), "at 1".to_string()),
            (Some(7), "at 2".to_string()),
            (Some(7), "no labels".to_string())
        ]
    );
}

#[test]
fn sort_puts_most_severe_first_and_keeps_arrival_order() {
    let mut r = Reporter::new();
    r.add(diag(Severity::Warning, None, 1));
    r.add(diag(Severity::Error, None, 2));
    r.add(diag(Severity::Help, None, 3));
    r.add(diag(Severity::Error, None, 4));
    r.add(diag(Severity::Bug, None, 5));
    r.sort();
    let order: Vec<String> = r.diagnostics().iter().map(|d| d.message.clone()).collect();
    assert_eq!(order, vec!["at 5", "at 2", "at 4", "at 1", "at 3"]);
}

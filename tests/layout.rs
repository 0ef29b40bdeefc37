use diagnostics::{
    build, Annotation, AnnotationKind, Diagnostic, FileId, FileInterner, Line, MultilineAnnotation,
    Position, Severity, Snippet, SnippetPart, Span, Spanned,
};

fn file_with_lines(files: &mut FileInterner, name: &str, n: usize) -> FileId {
    let mut src = String::new();
    for i in 0..n {
        src.push_str(&format!("line {}\n", i));
    }
    FileId::new(files, name.to_string(), src)
}

fn at(line: usize, col: usize) -> Position {
    Position { offset: line * 100 + col, line, col }
}

fn sp(file: FileId, a: (usize, usize), b: (usize, usize)) -> Span {
    Span { file, start: at(a.0, a.1), end: at(b.0, b.1) }
}

fn kinds(line: &Line) -> Vec<AnnotationKind> {
    line.annotations.iter().map(|a| a.kind).collect()
}

fn line<'a>(part: &'a SnippetPart, idx: usize) -> &'a Line {
    part.lines.iter().find(|l| l.idx == idx).expect("line present")
}

#[test]
fn single_line_labels_give_one_underline_each() {
    let mut files = FileInterner::new();
    let f = file_with_lines(&mut files, "a.rs", 6);
    let d = Diagnostic::new(Severity::Error, None, "m".to_string())
        .label(Severity::Error, Some(sp(f, (1, 2), (1, 5))), Some("first".to_string()))
        .label(Severity::Warning, Some(sp(f, (3, 0), (3, 4))), None)
        .label(Severity::Info, Some(sp(f, (1, 7), (1, 8))), Some("third".to_string()))
        .label(Severity::Help, None, Some("a note".to_string()));
    let s = build(&d);
    assert_eq!(s.parts.len(), 1);
    let part = &s.parts[0];
    assert_eq!(part.file, f);
    assert_eq!(part.lines.iter().map(|l| l.idx).collect::<Vec<_>>(), vec![1, 3]);
    let total: usize = part.lines.iter().map(|l| l.annotations.len()).sum();
    assert_eq!(total, 3);
    for l in &part.lines {
        for a in &l.annotations {
            assert_eq!(a.kind, AnnotationKind::Single);
        }
    }
    let l1 = line(part, 1);
    // Rightmost start first.
    assert_eq!((l1.annotations[0].start, l1.annotations[0].end), (7, 8));
    assert_eq!(l1.annotations[0].label, Some("third".to_string()));
    assert_eq!((l1.annotations[1].start, l1.annotations[1].end), (2, 5));
    assert_eq!(line(part, 3).annotations[0].severity, Severity::Warning);
}

#[test]
fn zero_width_span_is_widened_to_one_column() {
    let mut files = FileInterner::new();
    let f = file_with_lines(&mut files, "a.rs", 6);
    let d = Diagnostic::new(Severity::Error, None, "m".to_string())
        .label(Severity::Error, Some(sp(f, (3, 5), (3, 5))), None);
    let s = build(&d);
    let a = &s.parts[0].lines[0].annotations[0];
    assert_eq!(s.parts[0].lines[0].idx, 3);
    assert_eq!((a.start, a.end), (5, 6));
    assert_eq!(a.kind, AnnotationKind::Single);
}

#[test]
fn overlapping_brackets_nest() {
    let mut files = FileInterner::new();
    let f = file_with_lines(&mut files, "a.rs", 12);
    let d = Diagnostic::new(Severity::Error, None, "m".to_string())
        .label(Severity::Error, Some(sp(f, (4, 2), (10, 3))), Some("b".to_string()))
        .label(Severity::Error, Some(sp(f, (2, 0), (8, 3))), Some("a".to_string()));
    let s = build(&d);
    let part = &s.parts[0];
    assert_eq!(part.lines.iter().map(|l| l.idx).collect::<Vec<_>>(), vec![2, 4, 8, 10]);
    assert_eq!(kinds(line(part, 2)), vec![AnnotationKind::MultiStart(1)]);
    assert_eq!(
        kinds(line(part, 4)),
        vec![AnnotationKind::MultiStart(2), AnnotationKind::MultiLine(1)]
    );
    // Line 8 lies inside the second bracket and carries its bar.
    assert_eq!(kinds(line(part, 8)), vec![AnnotationKind::MultiEnd(1), AnnotationKind::MultiLine(2)]);
    assert_eq!(kinds(line(part, 10)), vec![AnnotationKind::MultiEnd(2)]);
    assert_eq!(part.max_depth(), 2);
}

#[test]
fn disjoint_brackets_share_depth_one() {
    let mut files = FileInterner::new();
    let f = file_with_lines(&mut files, "a.rs", 12);
    let d = Diagnostic::new(Severity::Error, None, "m".to_string())
        .label(Severity::Error, Some(sp(f, (1, 0), (2, 1))), None)
        .label(Severity::Error, Some(sp(f, (5, 0), (6, 1))), None);
    let s = build(&d);
    assert_eq!(s.parts[0].max_depth(), 1);
}

#[test]
fn identical_spans_collapse_to_one_bracket() {
    let mut files = FileInterner::new();
    let f = file_with_lines(&mut files, "a.rs", 12);
    let d = Diagnostic::new(Severity::Error, None, "m".to_string())
        .label(Severity::Error, Some(sp(f, (2, 1), (5, 4))), Some("one".to_string()))
        .label(Severity::Warning, Some(sp(f, (2, 1), (5, 4))), Some("two".to_string()));
    let s = build(&d);
    let part = &s.parts[0];
    assert_eq!(kinds(line(part, 2)), vec![AnnotationKind::MultiStart(1)]);
    let end = line(part, 5);
    assert_eq!(end.annotations.len(), 2);
    let single: Vec<&Annotation> =
        end.annotations.iter().filter(|a| a.kind == AnnotationKind::Single).collect();
    assert_eq!(single.len(), 1);
    assert_eq!(single[0].label, Some("two".to_string()));
    assert_eq!((single[0].start, single[0].end), (3, 4));
    assert!(end.annotations.iter().any(|a| a.kind == AnnotationKind::MultiEnd(1)));
}

#[test]
fn long_bracket_draws_only_lines_with_marks() {
    let mut files = FileInterner::new();
    let f = file_with_lines(&mut files, "a.rs", 40);
    let d = Diagnostic::new(Severity::Error, None, "m".to_string())
        .label(Severity::Error, Some(sp(f, (3, 0), (30, 2))), None)
        .label(Severity::Error, Some(sp(f, (5, 0), (5, 2))), None)
        .label(Severity::Error, Some(sp(f, (20, 0), (20, 2))), None)
        .label(Severity::Error, Some(sp(f, (29, 0), (29, 1))), None);
    let s = build(&d);
    let part = &s.parts[0];
    // Only lines with something besides a filler survive.
    assert_eq!(part.lines.iter().map(|l| l.idx).collect::<Vec<_>>(), vec![3, 5, 20, 29, 30]);
    // Every surviving interior line carries the bracket's bar; with equal
    // starts the mark added last is drawn first.
    for idx in [5, 20, 29] {
        assert_eq!(kinds(line(part, idx)), vec![AnnotationKind::MultiLine(1), AnnotationKind::Single]);
    }
    assert_eq!(kinds(line(part, 30)), vec![AnnotationKind::MultiEnd(1)]);
}

#[test]
fn labels_group_by_file_in_order_of_first_use() {
    let mut files = FileInterner::new();
    let f = file_with_lines(&mut files, "a.rs", 6);
    let g = file_with_lines(&mut files, "b.rs", 6);
    let d = Diagnostic::new(Severity::Error, None, "m".to_string())
        .label(Severity::Error, Some(sp(g, (4, 0), (4, 1))), None)
        .label(Severity::Error, Some(sp(f, (1, 0), (1, 1))), None)
        .label(Severity::Error, Some(sp(g, (2, 0), (2, 1))), None);
    let s = build(&d);
    assert_eq!(s.parts.len(), 2);
    assert_eq!(s.parts[0].file, g);
    assert_eq!(s.parts[0].span, sp(g, (4, 0), (4, 1)));
    assert_eq!(s.parts[0].lines.iter().map(|l| l.idx).collect::<Vec<_>>(), vec![2, 4]);
    assert_eq!(s.parts[1].file, f);
}

#[test]
fn finalize_drops_filler_lines_and_orders_marks() {
    let whole = sp(FileId(0), (0, 0), (3, 1));
    let ann = |start: usize, kind: AnnotationKind| Annotation {
        severity: Severity::Error,
        span: whole,
        start,
        end: start + 1,
        label: None,
        kind,
    };
    let mut s = Snippet {
        severity: Severity::Error,
        message: "m".to_string(),
        code: Some(3),
        parts: vec![SnippetPart {
            file: FileId(0),
            span: whole,
            lines: vec![
                Line { idx: 0, annotations: vec![ann(1, AnnotationKind::Single), ann(4, AnnotationKind::Single), ann(1, AnnotationKind::MultiStart(1))] },
                Line { idx: 1, annotations: vec![ann(0, AnnotationKind::MultiLine(1))] },
            ],
        }],
    };
    s.finalize();
    assert_eq!(s.parts[0].lines.len(), 1);
    let got: Vec<(usize, AnnotationKind)> =
        s.parts[0].lines[0].annotations.iter().map(|a| (a.start, a.kind)).collect();
    assert_eq!(
        got,
        vec![(4, AnnotationKind::Single), (1, AnnotationKind::MultiStart(1)), (1, AnnotationKind::Single)]
    );
    assert_eq!(s.code, Some(3));
}

#[test]
fn multiline_annotation_marks() {
    let m = MultilineAnnotation {
        severity: Severity::Warning,
        depth: 3,
        span: sp(FileId(0), (1, 4), (6, 9)),
        line_start: 1,
        line_end: 6,
        start_col: 4,
        end_col: 9,
        label: Some("here".to_string()),
        overlaps_exactly: false,
    };
    let s = m.as_start();
    assert_eq!((s.start, s.end, s.kind, s.label.clone()), (4, 5, AnnotationKind::MultiStart(3), None));
    let e = m.as_end();
    assert_eq!((e.start, e.end, e.kind), (8, 9, AnnotationKind::MultiEnd(3)));
    assert_eq!(e.label, Some("here".to_string()));
    let l = m.as_line();
    assert_eq!((l.start, l.end, l.kind), (0, 0, AnnotationKind::MultiLine(3)));
    let mut other = MultilineAnnotation { depth: 1, label: None, ..m };
    other.severity = Severity::Error;
    let m2 = MultilineAnnotation {
        severity: Severity::Warning,
        depth: 3,
        span: sp(FileId(0), (1, 4), (6, 9)),
        line_start: 1,
        line_end: 6,
        start_col: 4,
        end_col: 9,
        label: None,
        overlaps_exactly: false,
    };
    assert!(m2.same_span(&other));
    other.end_col = 8;
    assert!(!m2.same_span(&other));
    let z = MultilineAnnotation { end_col: 0, ..m2 };
    assert_eq!(z.as_end().start, 0);
}

#[test]
fn annotations_report_their_span() {
    let mut files = FileInterner::new();
    let f = file_with_lines(&mut files, "a.rs", 6);
    let whole = sp(f, (1, 0), (4, 2));
    let d = Diagnostic::new(Severity::Error, None, "m".to_string())
        .label(Severity::Error, Some(whole), None);
    let s = build(&d);
    for l in &s.parts[0].lines {
        for a in &l.annotations {
            assert_eq!(a.span(), whole);
        }
    }
}

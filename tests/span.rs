use diagnostics::{FileId, FileInfo, FileInterner, Position, Span};

fn pos(offset: usize, line: usize, col: usize) -> Position {
    Position { offset, line, col }
}

#[test]
fn empty_span_is_dummy() {
    let mut files = FileInterner::new();
    let f = FileId::new(&mut files, "a.rs".to_string(), "x".to_string());
    let s = Span::empty(f);
    assert!(s.is_dummy());
    assert_eq!(s.file, f);
}

#[test]
fn span_with_real_positions_is_not_dummy() {
    let s = Span { file: FileId(0), start: pos(3, 0, 3), end: pos(7, 1, 2) };
    assert!(!s.is_dummy());
    let t = Span { file: FileId(0), start: pos(0, 0, 0), end: pos(1, 0, 1) };
    assert!(!t.is_dummy());
}

#[test]
fn to_joins_start_and_end() {
    let a = Span { file: FileId(2), start: pos(1, 0, 1), end: pos(3, 0, 3) };
    let b = Span { file: FileId(2), start: pos(10, 1, 2), end: pos(14, 1, 6) };
    let j = a.to(b);
    assert_eq!(j.start, a.start);
    assert_eq!(j.end, b.end);
    assert_eq!(j.file, FileId(2));
}

#[test]
fn line_start_finds_first_column() {
    let s = Span { file: FileId(0), start: pos(14, 1, 4), end: pos(30, 2, 6) };
    assert_eq!(s.line_start(false), pos(10, 1, 0));
    assert_eq!(s.line_start(true), pos(24, 2, 0));
}

#[test]
fn line_end_reads_line_length() {
    let mut files = FileInterner::new();
    let f = FileId::new(&mut files, "a.rs".to_string(), "fn main() {\n    let x = 1;\r\n}\n".to_string());
    let s = Span { file: f, start: pos(16, 1, 4), end: pos(29, 2, 1) };
    // Line 1 is "    let x = 1;" (14 bytes, the carriage return is not part of it).
    assert_eq!(s.line_end(&files, true), pos(26, 1, 14));
    assert_eq!(s.line_end(&files, false), pos(29, 2, 1));
}

#[test]
fn line_end_past_last_line_is_empty() {
    let mut files = FileInterner::new();
    let f = FileId::new(&mut files, "a.rs".to_string(), "one\ntwo\n".to_string());
    let s = Span { file: f, start: pos(8, 2, 0), end: pos(8, 2, 0) };
    assert_eq!(s.line_end(&files, true), pos(8, 2, 0));
    assert_eq!(files.line_length(f, 1), 3);
    assert_eq!(files.line_length(f, 7), 0);
}

#[test]
fn interning_is_keyed_by_name() {
    let mut files = FileInterner::new();
    let a = FileId::new(&mut files, "a.rs".to_string(), "src".to_string());
    let b = FileId::new(&mut files, "a.rs".to_string(), "other".to_string());
    assert_eq!(a, b);
    assert_eq!(files.len(), 1);
    assert_eq!(files.get(a).source, "src");
    let c = FileId::new(&mut files, "b.rs".to_string(), "src".to_string());
    assert_ne!(a, c);
    assert_eq!(files.len(), 2);
    assert_eq!(files.get(c).name, "b.rs");
}

#[test]
fn intern_returns_existing_identity() {
    let mut files = FileInterner::new();
    let a = files.intern(FileInfo { name: "x".to_string(), source: "1".to_string() });
    let b = files.intern(FileInfo { name: "y".to_string(), source: "2".to_string() });
    let c = files.intern(FileInfo { name: "x".to_string(), source: "3".to_string() });
    assert_eq!(a, FileId(0));
    assert_eq!(b, FileId(1));
    assert_eq!(c, FileId(0));
}

use crate::file::{line_len, FileId, FileInterner};
use vstd::prelude::*;

verus! {

/// A place in a source file: a byte offset, and the 0-based line and column
/// (in bytes from the start of the line) that it falls on.
#[derive(Debug, Clone, Copy, PartialEq, Eq, Structural, PartialOrd, Ord, Hash)]
pub struct Position {
    pub offset: usize,
    pub line: usize,
    pub col: usize,
}

/// A range between two positions of one file.
#[derive(Debug, Clone, Copy, PartialEq, Eq, Structural, PartialOrd, Ord, Hash)]
pub struct Span {
    pub file: FileId,
    pub start: Position,
    pub end: Position,
}

/// Something that covers a span of source.
pub trait Spanned {
    fn span(&self) -> Span;
}

impl Position {
    /// The position at the very start of a file.
    pub open spec fn is_origin(self) -> bool {
        self.offset == 0 && self.line == 0 && self.col == 0
    }

    pub fn origin() -> (r: Position)
        ensures
            r.is_origin(),
    {
        Position { offset: 0, line: 0, col: 0 }
    }
}

impl Span {
    /// A span with no location in `file`.
    pub fn empty(file: FileId) -> (r: Span)
        ensures
            r.file == file,
            r.start.is_origin(),
            r.end.is_origin(),
    {
        Span { file, start: Position::origin(), end: Position::origin() }
    }

    pub open spec fn spec_is_dummy(&self) -> bool {
        self.start.is_origin() && self.end.is_origin()
    }

    /// A span is a dummy when both its ends are the origin of the file.
    #[verifier::when_used_as_spec(spec_is_dummy)]
    pub fn is_dummy(&self) -> (r: bool)
        ensures
            r == self.spec_is_dummy(),
    {
        self.start == Position::origin() && self.end == Position::origin()
    }

    /// The span from the start of `self` to the end of `other`.
    pub fn to(self, other: Span) -> (r: Span)
        requires
            self.file == other.file,
        ensures
            r.file == other.file,
            r.start == self.start,
            r.end == other.end,
    {
        Span { start: self.start, ..other }
    }

    /// The end of the span that `line_start` and `line_end` look at.
    pub open spec fn chosen(self, end: bool) -> Position {
        if end {
            self.end
        } else {
            self.start
        }
    }

    /// The first column of the line of the span's end (`end`) or start.
    pub fn line_start(&self, end: bool) -> (r: Position)
        requires
            self.chosen(end).col <= self.chosen(end).offset,
        ensures
            r.offset == self.chosen(end).offset - self.chosen(end).col,
            r.line == self.chosen(end).line,
            r.col == 0,
    {
        let p = if end {
            self.end
        } else {
            self.start
        };
        Position { offset: p.offset - p.col, line: p.line, col: 0 }
    }

    /// The position just past the last column of the line of the span's start
    /// (`start`) or end, found by reading the file's text in `files`.
    pub fn line_end(&self, files: &FileInterner, start: bool) -> (r: Position)
        requires
            files.wf(),
            files.contains(self.file),
            self.chosen(!start).col <= line_len(
                files.source_bytes(self.file),
                self.chosen(!start).line as nat,
            ),
            self.chosen(!start).offset + line_len(
                files.source_bytes(self.file),
                self.chosen(!start).line as nat,
            ) - self.chosen(!start).col <= usize::MAX,
        ensures
            ({
                let p = self.chosen(!start);
                let len = line_len(files.source_bytes(self.file), p.line as nat);
                &&& r.offset == p.offset + len - p.col
                &&& r.line == p.line
                &&& r.col == len
            }),
    {
        let p = if start {
            self.start
        } else {
            self.end
        };
        let len = files.line_length(self.file, p.line);
        Position { offset: p.offset + (len - p.col), line: p.line, col: len }
    }
}

/// A span is a dummy exactly when both its ends are the origin: the empty
/// span of any file is one, and a span with an end anywhere else is not.
pub proof fn lemma_dummy_iff_origin(file: FileId, a: Position, b: Position)
    ensures
        (Span { file, start: a, end: b }).spec_is_dummy() <==> a.is_origin() && b.is_origin(),
        (Span { file, start: Position { offset: 0, line: 0, col: 0 }, end: Position { offset: 0, line: 0, col: 0 } }).spec_is_dummy(),
{
}

} // verus!

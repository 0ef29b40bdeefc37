use crate::diagnostic::Severity;
use crate::file::FileId;
use crate::span::{Span, Spanned};
use vstd::prelude::*;

verus! {

/// The render plan of one diagnostic: its header and, per file, the source
/// lines to show with their annotations.
#[derive(Debug)]
pub struct Snippet {
    pub severity: Severity,
    pub message: String,
    pub code: Option<u16>,
    pub parts: Vec<SnippetPart>,
}

/// The lines of one file that a snippet shows; `span` is the span of the
/// first annotation that put the file in the snippet.
#[derive(Debug)]
pub struct SnippetPart {
    pub file: FileId,
    pub span: Span,
    pub lines: Vec<Line>,
}

/// One source line (0-based `idx`) and the annotations drawn under it.
#[derive(Debug, PartialEq, Eq)]
pub struct Line {
    pub idx: usize,
    pub annotations: Vec<Annotation>,
}

/// A mark under one source line, covering columns `start..end`.
#[derive(Debug, PartialEq, Eq)]
pub struct Annotation {
    pub severity: Severity,
    pub span: Span,
    pub start: usize,
    pub end: usize,
    pub label: Option<String>,
    pub kind: AnnotationKind,
}

/// What an annotation draws: an underline of its own, or a piece of a
/// multi-line bracket at the given nesting depth (first line, an interior
/// line that only carries the bar, last line).
#[derive(Debug, Clone, Copy, PartialEq, Eq, Structural)]
pub enum AnnotationKind {
    Single,
    MultiStart(usize),
    MultiLine(usize),
    MultiEnd(usize),
}

/// A label whose span covers several lines, while the layout places it.
#[derive(Debug)]
pub struct MultilineAnnotation {
    pub severity: Severity,
    pub depth: usize,
    pub span: Span,
    pub line_start: usize,
    pub line_end: usize,
    pub start_col: usize,
    pub end_col: usize,
    pub label: Option<String>,
    pub overlaps_exactly: bool,
}

impl Spanned for Annotation {
    fn span(&self) -> Span {
        self.span
    }
}

impl Spanned for MultilineAnnotation {
    fn span(&self) -> Span {
        self.span
    }
}

/// A `Line` as a value.
pub struct LineView {
    pub idx: usize,
    pub annotations: Seq<Annotation>,
}

/// A `SnippetPart` as a value.
pub struct PartView {
    pub file: FileId,
    pub span: Span,
    pub lines: Seq<LineView>,
}

impl View for Line {
    type V = LineView;

    open spec fn view(&self) -> LineView {
        LineView { idx: self.idx, annotations: self.annotations@ }
    }
}

impl View for SnippetPart {
    type V = PartView;

    open spec fn view(&self) -> PartView {
        PartView { file: self.file, span: self.span, lines: lines_view(self.lines@) }
    }
}

pub open spec fn lines_view(lines: Seq<Line>) -> Seq<LineView> {
    lines.map_values(|l: Line| l@)
}

pub open spec fn parts_view(parts: Seq<SnippetPart>) -> Seq<PartView> {
    parts.map_values(|p: SnippetPart| p@)
}

impl AnnotationKind {
    /// The nesting depth of a bracket piece; none for an underline.
    pub open spec fn depth(self) -> Option<usize> {
        match self {
            AnnotationKind::Single => None,
            AnnotationKind::MultiStart(d) => Some(d),
            AnnotationKind::MultiLine(d) => Some(d),
            AnnotationKind::MultiEnd(d) => Some(d),
        }
    }
}

/// A line stays in a finished snippet when it has an annotation other than a
/// bar-only filler.
pub open spec fn line_needed(l: LineView) -> bool {
    exists|i: int| 0 <= i < l.annotations.len() && !((#[trigger] l.annotations[i]).kind is MultiLine)
}

/// Inserts `x` before the first annotation that starts at or left of it.
pub open spec fn insert_desc(s: Seq<Annotation>, x: Annotation) -> Seq<Annotation>
    decreases s.len(),
{
    if s.len() == 0 {
        seq![x]
    } else if s[0].start <= x.start {
        seq![x] + s
    } else {
        seq![s[0]] + insert_desc(s.drop_first(), x)
    }
}

/// The drawing order of a line's annotations: by start column, rightmost
/// first, and among equal starts the one added last first (a stable sort by
/// start, reversed).
pub open spec fn order_line(s: Seq<Annotation>) -> Seq<Annotation>
    decreases s.len(),
{
    if s.len() == 0 {
        s
    } else {
        insert_desc(order_line(s.drop_last()), s.last())
    }
}

/// The lines of a part once finished: filler-only lines dropped, and each
/// remaining line's annotations in drawing order.
pub open spec fn finish_lines(ls: Seq<LineView>) -> Seq<LineView>
    decreases ls.len(),
{
    if ls.len() == 0 {
        ls
    } else {
        let rest = finish_lines(ls.drop_last());
        let l = ls.last();
        if line_needed(l) {
            rest.push(LineView { idx: l.idx, annotations: order_line(l.annotations) })
        } else {
            rest
        }
    }
}

pub open spec fn finish_part(p: PartView) -> PartView {
    PartView { file: p.file, span: p.span, lines: finish_lines(p.lines) }
}

pub open spec fn finish_parts(ps: Seq<PartView>) -> Seq<PartView> {
    ps.map_values(|p: PartView| finish_part(p))
}

/// The largest nesting depth of any bracket piece of a part, or 0.
pub open spec fn is_max_depth(p: PartView, m: usize) -> bool {
    &&& forall|i: int, j: int|
        0 <= i < p.lines.len() && 0 <= j < p.lines[i].annotations.len()
            && (#[trigger] p.lines[i].annotations[j]).kind.depth() is Some
            ==> p.lines[i].annotations[j].kind.depth().unwrap() <= m
    &&& m == 0 || exists|i: int, j: int|
        0 <= i < p.lines.len() && 0 <= j < p.lines[i].annotations.len()
            && (#[trigger] p.lines[i].annotations[j]).kind.depth() == Some(m)
}

pub fn clone_label(l: &Option<String>) -> (r: Option<String>)
    ensures
        r == *l,
{
    match l {
        Some(s) => Some(s.clone()),
        None => None,
    }
}

fn insert_desc_exec(v: &mut Vec<Annotation>, x: Annotation)
    ensures
        final(v)@ == insert_desc(old(v)@, x),
{
    let mut p: usize = 0;
    assert(v@.take(0) + insert_desc(v@.skip(0), x) =~= insert_desc(v@, x)) by {
        assert(v@.skip(0) =~= v@);
    }
    while p < v.len() && v[p].start > x.start
        invariant
            p <= v@.len(),
            v@ == old(v)@,
            insert_desc(v@, x) == v@.take(p as int) + insert_desc(v@.skip(p as int), x),
        decreases v@.len() - p,
    {
        proof {
            let s = v@.skip(p as int);
            assert(s.drop_first() =~= v@.skip(p + 1));
            assert(v@.take(p + 1) =~= v@.take(p as int) + seq![s[0]]);
        }
        p = p + 1;
    }
    proof {
        let s = v@.skip(p as int);
        if p < v@.len() {
            assert(s[0].start <= x.start);
        } else {
            assert(s.len() == 0);
        }
        assert(v@.take(p as int) + insert_desc(s, x) =~= v@.insert(p as int, x));
    }
    v.insert(p, x);
}

/// Puts a line's annotations in drawing order.
fn order_annotations(anns: Vec<Annotation>) -> (r: Vec<Annotation>)
    ensures
        r@ == order_line(anns@),
{
    let mut rest = anns;
    let ghost orig = rest@;
    let _ = rest.len();
    let mut out: Vec<Annotation> = Vec::new();
    let mut k: usize = 0;
    while rest.len() > 0
        invariant
            k <= orig.len(),
            k + rest@.len() == orig.len(),
            orig.len() <= usize::MAX,
            rest@ == orig.skip(k as int),
            out@ == order_line(orig.take(k as int)),
        decreases rest@.len(),
    {
        let x = rest.remove(0);
        proof {
            assert(orig.take(k + 1).drop_last() =~= orig.take(k as int));
            assert(orig.skip(k as int).drop_first() =~= orig.skip(k + 1));
        }
        insert_desc_exec(&mut out, x);
        k = k + 1;
    }
    assert(orig.take(k as int) =~= orig);
    out
}

fn line_has_label_row(l: &Line) -> (r: bool)
    ensures
        r == line_needed(l@),
{
    let mut i: usize = 0;
    while i < l.annotations.len()
        invariant
            i <= l.annotations@.len(),
            forall|j: int| 0 <= j < i ==> (#[trigger] l.annotations@[j]).kind is MultiLine,
        decreases l.annotations@.len() - i,
    {
        if !matches!(l.annotations[i].kind, AnnotationKind::MultiLine(_)) {
            return true;
        }
        i = i + 1;
    }
    false
}

fn finish_part_exec(part: SnippetPart) -> (r: SnippetPart)
    ensures
        r@ == finish_part(part@),
{
    let SnippetPart { file, span, lines } = part;
    let mut rest = lines;
    let ghost orig = lines_view(rest@);
    let _ = rest.len();
    let mut out: Vec<Line> = Vec::new();
    let mut k: usize = 0;
    while rest.len() > 0
        invariant
            k <= orig.len(),
            k + rest@.len() == orig.len(),
            orig.len() <= usize::MAX,
            lines_view(rest@) == orig.skip(k as int),
            lines_view(out@) == finish_lines(orig.take(k as int)),
        decreases rest@.len(),
    {
        let ghost before = rest@;
        let l = rest.remove(0);
        proof {
            assert(lines_view(rest@) =~= lines_view(before).drop_first());
            assert(orig.skip(k as int)[0] == l@);
            assert(orig.take(k + 1).drop_last() =~= orig.take(k as int));
            assert(orig.skip(k as int).drop_first() =~= orig.skip(k + 1));
        }
        if line_has_label_row(&l) {
            let Line { idx, annotations } = l;
            let ordered = order_annotations(annotations);
            let ghost out_before = out@;
            out.push(Line { idx, annotations: ordered });
            assert(lines_view(out@) =~= lines_view(out_before).push(
                LineView { idx, annotations: order_line(annotations@) },
            ));
        }
        k = k + 1;
    }
    assert(orig.take(k as int) =~= orig);
    SnippetPart { file, span, lines: out }
}

impl Snippet {
    /// Drops the lines that hold only bar fillers and puts each remaining
    /// line's annotations in drawing order.
    pub fn finalize(&mut self)
        ensures
            final(self).severity == old(self).severity,
            final(self).message == old(self).message,
            final(self).code == old(self).code,
            parts_view(final(self).parts@) == finish_parts(parts_view(old(self).parts@)),
    {
        let mut rest: Vec<SnippetPart> = Vec::new();
        std::mem::swap(&mut rest, &mut self.parts);
        let ghost orig = parts_view(rest@);
        let _ = rest.len();
        let mut out: Vec<SnippetPart> = Vec::new();
        let mut k: usize = 0;
        while rest.len() > 0
            invariant
                k <= orig.len(),
                k + rest@.len() == orig.len(),
            orig.len() <= usize::MAX,
                parts_view(rest@) == orig.skip(k as int),
                parts_view(out@) == finish_parts(orig.take(k as int)),
            decreases rest@.len(),
        {
            let ghost before = rest@;
            let ghost out_before = out@;
            let p = rest.remove(0);
            proof {
                assert(parts_view(rest@) =~= parts_view(before).drop_first());
                assert(orig.skip(k as int)[0] == p@);
            }
            let q = finish_part_exec(p);
            out.push(q);
            proof {
                assert(parts_view(out@) =~= parts_view(out_before).push(finish_part(p@)));
                assert(finish_parts(orig.take(k + 1)) =~= finish_parts(orig.take(k as int)).push(
                    finish_part(p@),
                ));
                assert(orig.skip(k as int).drop_first() =~= orig.skip(k + 1));
            }
            k = k + 1;
        }
        assert(orig.take(k as int) =~= orig);
        self.parts = out;
    }
}

impl SnippetPart {
    /// The deepest nesting level of any bracket in this part, 0 if none.
    pub fn max_depth(&self) -> (r: usize)
        ensures
            is_max_depth(self@, r),
    {
        let mut m: usize = 0;
        let mut i: usize = 0;
        let ghost v = self@;
        while i < self.lines.len()
            invariant
                v == self@,
                i <= v.lines.len(),
                forall|a: int, b: int|
                    0 <= a < i && 0 <= b < v.lines[a].annotations.len()
                        && (#[trigger] v.lines[a].annotations[b]).kind.depth() is Some
                        ==> v.lines[a].annotations[b].kind.depth().unwrap() <= m,
                m == 0 || exists|a: int, b: int|
                    0 <= a < v.lines.len() && 0 <= b < v.lines[a].annotations.len()
                        && (#[trigger] v.lines[a].annotations[b]).kind.depth() == Some(m),
            decreases v.lines.len() - i,
        {
            let line = &self.lines[i];
            assert(v.lines[i as int] == line@);
            let mut j: usize = 0;
            while j < line.annotations.len()
                invariant
                    v == self@,
                    i < v.lines.len(),
                    v.lines[i as int] == line@,
                    j <= line.annotations@.len(),
                    forall|a: int, b: int|
                        0 <= a < i && 0 <= b < v.lines[a].annotations.len()
                            && (#[trigger] v.lines[a].annotations[b]).kind.depth() is Some
                            ==> v.lines[a].annotations[b].kind.depth().unwrap() <= m,
                    forall|b: int|
                        0 <= b < j && (#[trigger] v.lines[i as int].annotations[b]).kind.depth() is Some
                            ==> v.lines[i as int].annotations[b].kind.depth().unwrap() <= m,
                    m == 0 || exists|a: int, b: int|
                        0 <= a < v.lines.len() && 0 <= b < v.lines[a].annotations.len()
                            && (#[trigger] v.lines[a].annotations[b]).kind.depth() == Some(m),
                decreases line.annotations@.len() - j,
            {
                let d = match line.annotations[j].kind {
                    AnnotationKind::Single => 0,
                    AnnotationKind::MultiStart(d) => d,
                    AnnotationKind::MultiLine(d) => d,
                    AnnotationKind::MultiEnd(d) => d,
                };
                if d > m {
                    m = d;
                    assert(v.lines[i as int].annotations[j as int].kind.depth() == Some(m));
                }
                j = j + 1;
            }
            i = i + 1;
        }
        m
    }
}

impl MultilineAnnotation {
    /// Whether two multi-line annotations cover the same lines and columns.
    pub open spec fn spec_same_span(&self, other: &Self) -> bool {
        &&& self.line_start == other.line_start
        &&& self.line_end == other.line_end
        &&& self.start_col == other.start_col
        &&& self.end_col == other.end_col
    }

    /// Compares two annotations by the lines and columns they cover alone.
    #[verifier::when_used_as_spec(spec_same_span)]
    pub fn same_span(&self, other: &Self) -> (r: bool)
        ensures
            r == self.spec_same_span(other),
    {
        self.line_start == other.line_start && self.line_end == other.line_end && self.start_col
            == other.start_col && self.end_col == other.end_col
    }

    pub open spec fn spec_as_start(&self) -> Annotation {
        Annotation {
            severity: self.severity,
            span: self.span,
            start: self.start_col,
            end: (self.start_col + 1) as usize,
            label: None,
            kind: AnnotationKind::MultiStart(self.depth),
        }
    }

    /// The bracket's opening mark: one column at its first column.
    pub fn as_start(&self) -> (r: Annotation)
        requires
            self.start_col < usize::MAX,
        ensures
            r == self.spec_as_start(),
    {
        Annotation {
            severity: self.severity,
            span: self.span,
            start: self.start_col,
            end: self.start_col + 1,
            label: None,
            kind: AnnotationKind::MultiStart(self.depth),
        }
    }

    pub open spec fn spec_as_end(&self) -> Annotation {
        Annotation {
            severity: self.severity,
            span: self.span,
            start: if self.end_col > 0 {
                (self.end_col - 1) as usize
            } else {
                0
            },
            end: self.end_col,
            label: self.label,
            kind: AnnotationKind::MultiEnd(self.depth),
        }
    }

    /// The bracket's closing mark: the column before its end column, with the
    /// label's text.
    pub fn as_end(&self) -> (r: Annotation)
        ensures
            r == self.spec_as_end(),
    {
        Annotation {
            severity: self.severity,
            span: self.span,
            start: if self.end_col > 0 {
                self.end_col - 1
            } else {
                0
            },
            end: self.end_col,
            label: clone_label(&self.label),
            kind: AnnotationKind::MultiEnd(self.depth),
        }
    }

    pub open spec fn spec_as_line(&self) -> Annotation {
        Annotation {
            severity: self.severity,
            span: self.span,
            start: 0,
            end: 0,
            label: None,
            kind: AnnotationKind::MultiLine(self.depth),
        }
    }

    /// A bar-only filler for an interior line of the bracket.
    pub fn as_line(&self) -> (r: Annotation)
        ensures
            r == self.spec_as_line(),
    {
        Annotation {
            severity: self.severity,
            span: self.span,
            start: 0,
            end: 0,
            label: None,
            kind: AnnotationKind::MultiLine(self.depth),
        }
    }
}

} // verus!

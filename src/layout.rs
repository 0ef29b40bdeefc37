use crate::diagnostic::{Diagnostic, Label};
use crate::file::FileId;
use crate::snippet::{
    clone_label, finish_lines, finish_part, finish_parts, insert_desc, line_needed, lines_view, order_line, parts_view,
    Annotation, AnnotationKind, Line, LineView, MultilineAnnotation, PartView, Snippet,
    SnippetPart,
};
use crate::file::FileInterner;
use crate::render::{nest_depth, part_drawable};
use crate::span::{Position, Span};
use vstd::prelude::*;

verus! {

/// One annotation bound for a line: its file, its 0-based line, the mark.
pub type Entry = (FileId, usize, Annotation);

/// A label's span is usable for layout: it does not run backwards, and its
/// columns leave room to widen by one.
pub open spec fn label_ok(l: Label) -> bool {
    match l.span {
        None => true,
        Some(sp) => {
            &&& sp.start.line < sp.end.line || (sp.start.line == sp.end.line && sp.start.col
                <= sp.end.col)
            &&& sp.start.col < usize::MAX
            &&& sp.end.col < usize::MAX
        },
    }
}

pub open spec fn labels_ok(ls: Seq<Label>) -> bool {
    forall|i: int| 0 <= i < ls.len() ==> label_ok(#[trigger] ls[i])
}

/// The end of a span, widened by one column when the span is empty.
pub open spec fn widened_end(sp: Span) -> Position {
    if sp.start.col == sp.end.col && sp.start.line == sp.end.line {
        Position { col: (sp.end.col + 1) as usize, ..sp.end }
    } else {
        sp.end
    }
}

pub open spec fn is_multiline(sp: Span) -> bool {
    sp.start.line != sp.end.line
}

/// The underline of a label whose span stays on one line.
pub open spec fn single_of(l: Label, sp: Span) -> Annotation {
    Annotation {
        severity: l.severity,
        span: sp,
        start: sp.start.col,
        end: widened_end(sp).col,
        label: l.message,
        kind: AnnotationKind::Single,
    }
}

/// A label whose span covers several lines, before depths are assigned.
pub open spec fn multi_of(l: Label, sp: Span) -> MultilineAnnotation {
    MultilineAnnotation {
        severity: l.severity,
        depth: 1,
        span: sp,
        line_start: sp.start.line,
        line_end: sp.end.line,
        start_col: sp.start.col,
        end_col: widened_end(sp).col,
        label: l.message,
        overlaps_exactly: false,
    }
}

/// The underlines of the one-line labels, in label order.
pub open spec fn singles(ls: Seq<Label>) -> Seq<Entry>
    decreases ls.len(),
{
    if ls.len() == 0 {
        Seq::empty()
    } else {
        let rest = singles(ls.drop_last());
        let l = ls.last();
        match l.span {
            Some(sp) => if is_multiline(sp) {
                rest
            } else {
                rest.push((sp.file, sp.start.line, single_of(l, sp)))
            },
            None => rest,
        }
    }
}

/// The multi-line labels, in label order.
pub open spec fn multis(ls: Seq<Label>) -> Seq<MultilineAnnotation>
    decreases ls.len(),
{
    if ls.len() == 0 {
        Seq::empty()
    } else {
        let rest = multis(ls.drop_last());
        let l = ls.last();
        match l.span {
            Some(sp) => if is_multiline(sp) {
                rest.push(multi_of(l, sp))
            } else {
                rest
            },
            None => rest,
        }
    }
}

/// `a` sorts after `b` by (first line, last line).
pub open spec fn key_gt(a: MultilineAnnotation, b: MultilineAnnotation) -> bool {
    a.line_start > b.line_start || (a.line_start == b.line_start && a.line_end > b.line_end)
}

/// Inserts `x` after every element whose key is not greater than its own.
pub open spec fn insert_sorted(s: Seq<MultilineAnnotation>, x: MultilineAnnotation) -> Seq<
    MultilineAnnotation,
>
    decreases s.len(),
{
    if s.len() == 0 {
        seq![x]
    } else if key_gt(s[0], x) {
        seq![x] + s
    } else {
        seq![s[0]] + insert_sorted(s.drop_first(), x)
    }
}

/// A stable sort by (first line, last line).
pub open spec fn sort_multis(s: Seq<MultilineAnnotation>) -> Seq<MultilineAnnotation>
    decreases s.len(),
{
    if s.len() == 0 {
        s
    } else {
        insert_sorted(sort_multis(s.drop_last()), s.last())
    }
}

/// The line ranges of `a` and `b`, both ends included, meet.
pub open spec fn lines_overlap(a: MultilineAnnotation, b: MultilineAnnotation) -> bool {
    a.line_start <= b.line_end && b.line_start <= a.line_end
}

/// How many of the first `k` annotations of `ms` overlap `ms[j]` in lines
/// without covering exactly the same span.
pub open spec fn overlap_count(ms: Seq<MultilineAnnotation>, j: int, k: int) -> nat
    decreases k,
{
    if k <= 0 {
        0
    } else {
        overlap_count(ms, j, k - 1) + if lines_overlap(ms[k - 1], ms[j]) && !ms[k - 1].spec_same_span(
            &ms[j],
        ) {
            1nat
        } else {
            0nat
        }
    }
}

/// The nesting depth of `ms[j]`: one more than the number of annotations
/// sorted before it that overlap it and are not exact duplicates of it.
pub open spec fn depth_of(ms: Seq<MultilineAnnotation>, j: int) -> nat {
    1 + overlap_count(ms, j, j)
}

/// `ms[j]` covers exactly the span of an annotation sorted before it.
pub open spec fn duplicate_of(ms: Seq<MultilineAnnotation>, j: int) -> bool {
    exists|i: int| 0 <= i < j && (#[trigger] ms[i]).spec_same_span(&ms[j])
}

pub open spec fn placed(ms: Seq<MultilineAnnotation>, j: int) -> MultilineAnnotation {
    MultilineAnnotation {
        depth: depth_of(ms, j) as usize,
        overlaps_exactly: duplicate_of(ms, j),
        ..ms[j]
    }
}

/// All annotations of `ms` with their depth and duplicate flag set.
pub open spec fn place_all(ms: Seq<MultilineAnnotation>) -> Seq<MultilineAnnotation> {
    Seq::new(ms.len(), |j: int| placed(ms, j))
}

/// The bar-only fillers of a bracket: one on each of its interior lines.
/// Lines that end up holding nothing but fillers are dropped when the
/// snippet is finished, so only the interior lines that carry a mark of
/// their own are drawn, each with the bar of every bracket around it.
pub open spec fn fillers(m: MultilineAnnotation) -> Seq<Entry> {
    Seq::new(
        (m.line_end - m.line_start - 1) as nat,
        |i: int| (m.span.file, (m.line_start + 1 + i) as usize, m.spec_as_line()),
    )
}

/// What a placed bracket contributes: opening mark, fillers and closing mark;
/// an exact duplicate contributes only its closing mark, as an underline.
pub open spec fn emit_multi(m: MultilineAnnotation) -> Seq<Entry> {
    let f = m.span.file;
    if m.overlaps_exactly {
        seq![(f, m.line_end, Annotation { kind: AnnotationKind::Single, ..m.spec_as_end() })]
    } else {
        seq![(f, m.line_start, m.spec_as_start())] + fillers(m) + seq![
            (f, m.line_end, m.spec_as_end()),
        ]
    }
}

pub open spec fn emit_all(ms: Seq<MultilineAnnotation>) -> Seq<Entry>
    decreases ms.len(),
{
    if ms.len() == 0 {
        Seq::empty()
    } else {
        emit_all(ms.drop_last()) + emit_multi(ms.last())
    }
}

/// Every annotation the layout of `ls` produces, in the order it is added.
pub open spec fn emitted(ls: Seq<Label>) -> Seq<Entry> {
    singles(ls) + emit_all(place_all(sort_multis(multis(ls))))
}

/// The first part from `from` on that belongs to `file`, or the length.
pub open spec fn find_part(ps: Seq<PartView>, file: FileId, from: nat) -> nat
    decreases ps.len() - from,
{
    if from >= ps.len() {
        ps.len()
    } else if ps[from as int].file == file {
        from
    } else {
        find_part(ps, file, from + 1)
    }
}

/// The first line from `from` on with index `idx`, or the length.
pub open spec fn find_line(ls: Seq<LineView>, idx: usize, from: nat) -> nat
    decreases ls.len() - from,
{
    if from >= ls.len() {
        ls.len()
    } else if ls[from as int].idx == idx {
        from
    } else {
        find_line(ls, idx, from + 1)
    }
}

/// The first line from `from` on whose index is above `idx`, or the length.
pub open spec fn insert_pos(ls: Seq<LineView>, idx: usize, from: nat) -> nat
    decreases ls.len() - from,
{
    if from >= ls.len() {
        ls.len()
    } else if ls[from as int].idx > idx {
        from
    } else {
        insert_pos(ls, idx, from + 1)
    }
}

/// Adds `ann` to line `idx` of a part: to the line's list when the line is
/// there, else as a new line placed by index.
pub open spec fn add_to_part(p: PartView, idx: usize, ann: Annotation) -> PartView {
    let q = find_line(p.lines, idx, 0);
    if q < p.lines.len() {
        PartView {
            lines: p.lines.update(
                q as int,
                LineView { idx, annotations: p.lines[q as int].annotations.push(ann) },
            ),
            ..p
        }
    } else {
        PartView {
            lines: p.lines.insert(
                insert_pos(p.lines, idx, 0) as int,
                LineView { idx, annotations: seq![ann] },
            ),
            ..p
        }
    }
}

/// Adds an entry to the parts: to the part of its file, or to a new part
/// whose span is the annotation's.
pub open spec fn add_entry(ps: Seq<PartView>, e: Entry) -> Seq<PartView> {
    let p = find_part(ps, e.0, 0);
    if p < ps.len() {
        ps.update(p as int, add_to_part(ps[p as int], e.1, e.2))
    } else {
        ps.push(PartView { file: e.0, span: e.2.span, lines: seq![LineView { idx: e.1, annotations: seq![e.2] }] })
    }
}

/// The parts that adding the entries of `es` in order gives.
pub open spec fn group(es: Seq<Entry>) -> Seq<PartView>
    decreases es.len(),
{
    if es.len() == 0 {
        Seq::empty()
    } else {
        add_entry(group(es.drop_last()), es.last())
    }
}

/// The layout of a diagnostic with these labels.
pub open spec fn layout(ls: Seq<Label>) -> Seq<PartView> {
    finish_parts(group(emitted(ls)))
}

proof fn lemma_group_push(es: Seq<Entry>, e: Entry)
    ensures
        group(es.push(e)) == add_entry(group(es), e),
{
    assert(es.push(e).drop_last() =~= es);
}

fn add_annotation(parts: &mut Vec<SnippetPart>, file: FileId, idx: usize, ann: Annotation)
    ensures
        parts_view(final(parts)@) == add_entry(parts_view(old(parts)@), (file, idx, ann)),
{
    let ghost ps = parts_view(parts@);
    let mut p: usize = 0;
    while p < parts.len() && parts[p].file != file
        invariant
            p <= parts@.len(),
            parts_view(parts@) == ps,
            find_part(ps, file, p as nat) == find_part(ps, file, 0),
        decreases parts@.len() - p,
    {
        p = p + 1;
    }
    if p < parts.len() {
        assert(find_part(ps, file, 0) == p);
        let mut part = parts.remove(p);
        let ghost pv = part@;
        assert(pv == ps[p as int]);
        let mut q: usize = 0;
        while q < part.lines.len() && part.lines[q].idx != idx
            invariant
                q <= part.lines@.len(),
                part@ == pv,
                find_line(pv.lines, idx, q as nat) == find_line(pv.lines, idx, 0),
            decreases part.lines@.len() - q,
        {
            q = q + 1;
        }
        if q < part.lines.len() {
            let mut line = part.lines.remove(q);
            let ghost lv = line@;
            assert(lv == pv.lines[q as int]);
            line.annotations.push(ann);
            part.lines.insert(q, line);
            assert(lines_view(part.lines@) =~= pv.lines.update(
                q as int,
                LineView { idx, annotations: lv.annotations.push(ann) },
            ));
        } else {
            let mut r: usize = 0;
            while r < part.lines.len() && part.lines[r].idx <= idx
                invariant
                    r <= part.lines@.len(),
                    part@ == pv,
                    insert_pos(pv.lines, idx, r as nat) == insert_pos(pv.lines, idx, 0),
                decreases part.lines@.len() - r,
            {
                r = r + 1;
            }
            let line = Line { idx, annotations: vec![ann] };
            assert(line@.annotations =~= seq![ann]);
            part.lines.insert(r, line);
            assert(lines_view(part.lines@) =~= pv.lines.insert(
                r as int,
                LineView { idx, annotations: seq![ann] },
            ));
        }
        assert(part@ == add_to_part(pv, idx, ann));
        parts.insert(p, part);
        assert(parts_view(parts@) =~= ps.update(p as int, add_to_part(pv, idx, ann)));
    } else {
        let span = ann.span;
        let line = Line { idx, annotations: vec![ann] };
        assert(line@.annotations =~= seq![ann]);
        let lines = vec![line];
        assert(lines_view(lines@) =~= seq![LineView { idx, annotations: seq![ann] }]);
        parts.push(SnippetPart { file, span, lines });
        assert(parts_view(parts@) =~= ps.push(
            PartView { file, span, lines: seq![LineView { idx, annotations: seq![ann] }] },
        ));
    }
}

/// A bracket that the layout can draw: it spans several lines, and its
/// opening column leaves room for a one-column mark.
pub open spec fn multi_ok(m: MultilineAnnotation) -> bool {
    m.line_start < m.line_end && m.start_col < usize::MAX
}

pub open spec fn all_multi_ok(ms: Seq<MultilineAnnotation>) -> bool {
    forall|i: int| 0 <= i < ms.len() ==> multi_ok(#[trigger] ms[i])
}

proof fn lemma_multis_ok(ls: Seq<Label>)
    requires
        labels_ok(ls),
    ensures
        all_multi_ok(multis(ls)),
    decreases ls.len(),
{
    if ls.len() > 0 {
        assert(labels_ok(ls.drop_last())) by {
            assert forall|i: int| 0 <= i < ls.drop_last().len() implies label_ok(
                #[trigger] ls.drop_last()[i],
            ) by {
                assert(ls.drop_last()[i] == ls[i]);
            }
        }
        lemma_multis_ok(ls.drop_last());
        assert(label_ok(ls[ls.len() - 1]));
    }
}

proof fn lemma_insert_sorted_ok(s: Seq<MultilineAnnotation>, x: MultilineAnnotation)
    requires
        all_multi_ok(s),
        multi_ok(x),
    ensures
        all_multi_ok(insert_sorted(s, x)),
        insert_sorted(s, x).len() == s.len() + 1,
    decreases s.len(),
{
    if s.len() > 0 && !key_gt(s[0], x) {
        lemma_insert_sorted_ok(s.drop_first(), x);
        let t = insert_sorted(s.drop_first(), x);
        assert forall|i: int| 0 <= i < insert_sorted(s, x).len() implies multi_ok(
            #[trigger] insert_sorted(s, x)[i],
        ) by {
            if i > 0 {
                assert(insert_sorted(s, x)[i] == t[i - 1]);
            }
        }
    } else if s.len() > 0 {
        assert forall|i: int| 0 <= i < insert_sorted(s, x).len() implies multi_ok(
            #[trigger] insert_sorted(s, x)[i],
        ) by {
            if i > 0 {
                assert(insert_sorted(s, x)[i] == s[i - 1]);
            }
        }
    }
}

proof fn lemma_sort_ok(s: Seq<MultilineAnnotation>)
    requires
        all_multi_ok(s),
    ensures
        all_multi_ok(sort_multis(s)),
        sort_multis(s).len() == s.len(),
    decreases s.len(),
{
    if s.len() > 0 {
        assert(all_multi_ok(s.drop_last())) by {
            assert forall|i: int| 0 <= i < s.drop_last().len() implies multi_ok(
                #[trigger] s.drop_last()[i],
            ) by {
                assert(s.drop_last()[i] == s[i]);
            }
        }
        lemma_sort_ok(s.drop_last());
        lemma_insert_sorted_ok(sort_multis(s.drop_last()), s.last());
    }
}

fn insert_sorted_exec(v: &mut Vec<MultilineAnnotation>, x: MultilineAnnotation)
    ensures
        final(v)@ == insert_sorted(old(v)@, x),
{
    let mut p: usize = 0;
    assert(v@.take(0) + insert_sorted(v@.skip(0), x) =~= insert_sorted(v@, x)) by {
        assert(v@.skip(0) =~= v@);
    }
    while p < v.len() && !(v[p].line_start > x.line_start || (v[p].line_start == x.line_start
        && v[p].line_end > x.line_end))
        invariant
            p <= v@.len(),
            v@ == old(v)@,
            insert_sorted(v@, x) == v@.take(p as int) + insert_sorted(v@.skip(p as int), x),
        decreases v@.len() - p,
    {
        proof {
            let s = v@.skip(p as int);
            assert(s.drop_first() =~= v@.skip(p + 1));
            assert(v@.take(p + 1) =~= v@.take(p as int) + seq![s[0]]);
        }
        p = p + 1;
    }
    proof {
        let s = v@.skip(p as int);
        if p >= v@.len() {
            assert(s.len() == 0);
        }
        assert(v@.take(p as int) + insert_sorted(s, x) =~= v@.insert(p as int, x));
    }
    v.insert(p, x);
}

/// Sorts brackets by (first line, last line), keeping the order of ties.
fn sort_by_lines(ms: Vec<MultilineAnnotation>) -> (r: Vec<MultilineAnnotation>)
    ensures
        r@ == sort_multis(ms@),
{
    let mut rest = ms;
    let ghost orig = rest@;
    let _ = rest.len();
    let mut out: Vec<MultilineAnnotation> = Vec::new();
    let mut k: usize = 0;
    while rest.len() > 0
        invariant
            k <= orig.len(),
            k + rest@.len() == orig.len(),
            orig.len() <= usize::MAX,
            rest@ == orig.skip(k as int),
            out@ == sort_multis(orig.take(k as int)),
        decreases rest@.len(),
    {
        let x = rest.remove(0);
        proof {
            assert(orig.take(k + 1).drop_last() =~= orig.take(k as int));
            assert(orig.skip(k as int).drop_first() =~= orig.skip(k + 1));
        }
        insert_sorted_exec(&mut out, x);
        k = k + 1;
    }
    assert(orig.take(k as int) =~= orig);
    out
}

impl MultilineAnnotation {
    /// A copy with the given depth and duplicate flag.
    fn with_placement(&self, depth: usize, overlaps_exactly: bool) -> (r: MultilineAnnotation)
        ensures
            r == (MultilineAnnotation { depth, overlaps_exactly, ..*self }),
    {
        MultilineAnnotation {
            severity: self.severity,
            depth,
            span: self.span,
            line_start: self.line_start,
            line_end: self.line_end,
            start_col: self.start_col,
            end_col: self.end_col,
            label: clone_label(&self.label),
            overlaps_exactly,
        }
    }
}

/// Gives each bracket its nesting depth and marks exact duplicates.
fn place(ms: &Vec<MultilineAnnotation>) -> (r: Vec<MultilineAnnotation>)
    ensures
        r@ == place_all(ms@),
{
    let mut out: Vec<MultilineAnnotation> = Vec::new();
    let mut j: usize = 0;
    while j < ms.len()
        invariant
            j <= ms@.len(),
            out@ =~= place_all(ms@).take(j as int),
        decreases ms@.len() - j,
    {
        let mut d: usize = 1;
        let mut dup = false;
        let mut i: usize = 0;
        while i < j
            invariant
                i <= j < ms@.len(),
                ms@.len() <= usize::MAX,
                d == 1 + overlap_count(ms@, j as int, i as int),
                d <= 1 + i,
                dup == exists|k: int| 0 <= k < i && (#[trigger] ms@[k]).spec_same_span(&ms@[j as int]),
            decreases j - i,
        {
            let a = &ms[i];
            let b = &ms[j];
            let same = a.same_span(b);
            if a.line_start <= b.line_end && b.line_start <= a.line_end && !same {
                d = d + 1;
            }
            if same {
                dup = true;
            }
            i = i + 1;
        }
        let m = ms[j].with_placement(d, dup);
        out.push(m);
        j = j + 1;
    }
    out
}

fn make_single(l: &Label, sp: Span) -> (r: Annotation)
    requires
        label_ok(*l),
        l.span == Some(sp),
    ensures
        r == single_of(*l, sp),
{
    let mut hi = sp.end;
    if sp.start.col == hi.col && sp.start.line == hi.line {
        hi.col = hi.col + 1;
    }
    Annotation {
        severity: l.severity,
        span: sp,
        start: sp.start.col,
        end: hi.col,
        label: clone_label(&l.message),
        kind: AnnotationKind::Single,
    }
}

fn make_multi(l: &Label, sp: Span) -> (r: MultilineAnnotation)
    requires
        label_ok(*l),
        l.span == Some(sp),
    ensures
        r == multi_of(*l, sp),
{
    let mut hi = sp.end;
    if sp.start.col == hi.col && sp.start.line == hi.line {
        hi.col = hi.col + 1;
    }
    MultilineAnnotation {
        severity: l.severity,
        depth: 1,
        span: sp,
        line_start: sp.start.line,
        line_end: sp.end.line,
        start_col: sp.start.col,
        end_col: hi.col,
        label: clone_label(&l.message),
        overlaps_exactly: false,
    }
}

/// Adds the entries of one placed bracket.
fn emit_one(parts: &mut Vec<SnippetPart>, m: &MultilineAnnotation, Ghost(done): Ghost<Seq<Entry>>)
    requires
        parts_view(old(parts)@) == group(done),
        multi_ok(*m),
    ensures
        parts_view(final(parts)@) == group(done + emit_multi(*m)),
{
    let f = m.span.file;
    if !m.overlaps_exactly {
        let ghost mut acc = done;
        let first = m.as_start();
        proof {
            lemma_group_push(acc, (f, m.line_start, first));
            acc = acc.push((f, m.line_start, first));
        }
        add_annotation(parts, f, m.line_start, first);
        let ghost head_fn = |i: int| (f, (m.line_start + 1 + i) as usize, m.spec_as_line());
        let mut line = m.line_start + 1;
        while line < m.line_end
            invariant
                m.line_start + 1 <= line <= m.line_end,
                multi_ok(*m),
                f == m.span.file,
                head_fn == (|i: int| (f, (m.line_start + 1 + i) as usize, m.spec_as_line())),
                acc =~= done.push((f, m.line_start, m.spec_as_start())) + Seq::new(
                    (line - m.line_start - 1) as nat,
                    head_fn,
                ),
                parts_view(parts@) == group(acc),
            decreases m.line_end - line,
        {
            let filler = m.as_line();
            proof {
                lemma_group_push(acc, (f, line, filler));
                let n = (line - m.line_start - 1) as nat;
                assert(Seq::new(n + 1, head_fn) =~= Seq::new(n, head_fn).push(head_fn(n as int)));
                acc = acc.push((f, line, filler));
            }
            add_annotation(parts, f, line, filler);
            line = line + 1;
        }
        assert(acc =~= done.push((f, m.line_start, m.spec_as_start())) + fillers(*m));
        let last = m.as_end();
        proof {
            lemma_group_push(acc, (f, m.line_end, last));
            acc = acc.push((f, m.line_end, last));
        }
        add_annotation(parts, f, m.line_end, last);
        assert(acc =~= done + emit_multi(*m));
    } else {
        let mut last = m.as_end();
        last.kind = AnnotationKind::Single;
        proof {
            lemma_group_push(done, (f, m.line_end, last));
            assert(done.push((f, m.line_end, last)) =~= done + emit_multi(*m));
        }
        add_annotation(parts, f, m.line_end, last);
    }
}

/// Lays out a diagnostic: its one-line labels as underlines, its multi-line
/// labels as nested brackets, grouped by file and line and put in drawing
/// order. Labels without a span are left out.
pub fn build(diag: &Diagnostic) -> (r: Snippet)
    requires
        labels_ok(diag.labels@),
    ensures
        r.severity == diag.severity,
        r.message == diag.message,
        r.code == diag.code,
        parts_view(r.parts@) == layout(diag.labels@),
{
    let ghost ls = diag.labels@;
    let mut parts: Vec<SnippetPart> = Vec::new();
    let mut ms: Vec<MultilineAnnotation> = Vec::new();
    let mut i: usize = 0;
    assert(ls.take(0) =~= Seq::<Label>::empty());
    assert(parts_view(parts@) =~= Seq::<PartView>::empty());
    while i < diag.labels.len()
        invariant
            ls == diag.labels@,
            labels_ok(ls),
            i <= ls.len(),
            parts_view(parts@) == group(singles(ls.take(i as int))),
            ms@ == multis(ls.take(i as int)),
        decreases ls.len() - i,
    {
        let lbl = &diag.labels[i];
        proof {
            assert(ls.take(i + 1).drop_last() =~= ls.take(i as int));
            assert(ls.take(i + 1).last() == ls[i as int]);
            assert(label_ok(ls[i as int]));
        }
        match lbl.span {
            Some(sp) => {
                if sp.start.line != sp.end.line {
                    let m = make_multi(lbl, sp);
                    ms.push(m);
                } else {
                    let ann = make_single(lbl, sp);
                    proof {
                        lemma_group_push(singles(ls.take(i as int)), (sp.file, sp.start.line, ann));
                    }
                    add_annotation(&mut parts, sp.file, sp.start.line, ann);
                }
            },
            None => {},
        }
        i = i + 1;
    }
    assert(ls.take(i as int) =~= ls);
    proof {
        lemma_multis_ok(ls);
        lemma_sort_ok(multis(ls));
    }
    let sorted = sort_by_lines(ms);
    let placed_v = place(&sorted);
    let ghost pl = placed_v@;
    let ghost base = singles(ls);
    let mut j: usize = 0;
    assert(pl.take(0) =~= Seq::<MultilineAnnotation>::empty());
    assert(base + emit_all(pl.take(0)) =~= base);
    while j < placed_v.len()
        invariant
            pl == placed_v@,
            pl == place_all(sort_multis(multis(ls))),
            all_multi_ok(sort_multis(multis(ls))),
            j <= pl.len(),
            parts_view(parts@) == group(base + emit_all(pl.take(j as int))),
        decreases pl.len() - j,
    {
        proof {
            assert(multi_ok(sort_multis(multis(ls))[j as int]));
            assert(pl.take(j + 1).drop_last() =~= pl.take(j as int));
            assert(pl.take(j + 1).last() == pl[j as int]);
            assert(base + emit_all(pl.take(j + 1)) =~= (base + emit_all(pl.take(j as int)))
                + emit_multi(pl[j as int]));
        }
        emit_one(&mut parts, &placed_v[j], Ghost(base + emit_all(pl.take(j as int))));
        j = j + 1;
    }
    assert(pl.take(j as int) =~= pl);
    let mut snippet = Snippet {
        severity: diag.severity,
        message: diag.message.clone(),
        code: diag.code,
        parts,
    };
    snippet.finalize();
    snippet
}

proof fn lemma_overlap_count_bounds(ms: Seq<MultilineAnnotation>, j: int, k: int)
    requires
        0 <= k,
    ensures
        overlap_count(ms, j, k) <= k,
        overlap_count(ms, j, k) == 0 <==> forall|i: int|
            0 <= i < k ==> !(lines_overlap(#[trigger] ms[i], ms[j]) && !ms[i].spec_same_span(&ms[j])),
    decreases k,
{
    if k > 0 {
        lemma_overlap_count_bounds(ms, j, k - 1);
        if overlap_count(ms, j, k) == 0 {
            assert forall|i: int|
                0 <= i < k implies !(lines_overlap(#[trigger] ms[i], ms[j]) && !ms[i].spec_same_span(
                &ms[j],
            )) by {
                if i < k - 1 {
                } else {
                }
            }
        }
    }
}

/// A bracket sits at depth 1 exactly when no bracket sorted before it
/// overlaps its lines without covering exactly its span; each such bracket
/// pushes it one level deeper, so one overlap already puts it at depth 2 or
/// more.
pub proof fn lemma_depth_grows_with_overlap(ms: Seq<MultilineAnnotation>, j: int)
    requires
        0 <= j < ms.len() <= usize::MAX,
    ensures
        place_all(ms)[j].depth == depth_of(ms, j),
        depth_of(ms, j) == 1 <==> forall|i: int|
            0 <= i < j ==> !(lines_overlap(#[trigger] ms[i], ms[j]) && !ms[i].spec_same_span(&ms[j])),
        (exists|i: int|
            0 <= i < j && lines_overlap(#[trigger] ms[i], ms[j]) && !ms[i].spec_same_span(&ms[j]))
            ==> depth_of(ms, j) >= 2,
{
    lemma_overlap_count_bounds(ms, j, j);
}

/// Of brackets covering exactly the same span, only the first sorted one
/// draws an opening mark and fillers; every later one contributes nothing
/// but its closing mark, demoted to an underline.
pub proof fn lemma_duplicate_collapses(ms: Seq<MultilineAnnotation>, i: int, j: int)
    requires
        0 <= i < j < ms.len(),
        ms[i].spec_same_span(&ms[j]),
        forall|k: int| 0 <= k < i ==> !(#[trigger] ms[k]).spec_same_span(&ms[i]),
    ensures
        !place_all(ms)[i].overlaps_exactly,
        emit_multi(place_all(ms)[i])[0].2.kind is MultiStart,
        place_all(ms)[j].overlaps_exactly,
        emit_multi(place_all(ms)[j]).len() == 1,
        emit_multi(place_all(ms)[j])[0].1 == ms[j].line_end,
        emit_multi(place_all(ms)[j])[0].2.kind == AnnotationKind::Single,
{
    assert(duplicate_of(ms, j));
    assert(!duplicate_of(ms, i));
}

/// All labels with a span stay on one line.
pub open spec fn all_single_line(ls: Seq<Label>) -> bool {
    forall|i: int|
        0 <= i < ls.len() ==> match (#[trigger] ls[i]).span {
            Some(sp) => !is_multiline(sp),
            None => true,
        }
}

/// The labels of `ls` that have a span.
pub open spec fn spanned(ls: Seq<Label>) -> Seq<Label>
    decreases ls.len(),
{
    if ls.len() == 0 {
        ls
    } else if ls.last().span is Some {
        spanned(ls.drop_last()).push(ls.last())
    } else {
        spanned(ls.drop_last())
    }
}

/// Every annotation in the parts satisfies `single`: it is an underline.
pub open spec fn all_underlines(ps: Seq<PartView>) -> bool {
    forall|p: int, l: int, a: int|
        0 <= p < ps.len() && 0 <= l < ps[p].lines.len() && 0 <= a < ps[p].lines[l].annotations.len()
            ==> (#[trigger] ps[p].lines[l].annotations[a]).kind == AnnotationKind::Single
}

proof fn lemma_insert_pos_bound(ls: Seq<LineView>, idx: usize, from: nat)
    ensures
        insert_pos(ls, idx, from) <= ls.len() || insert_pos(ls, idx, from) == from,
        from <= ls.len() ==> insert_pos(ls, idx, from) <= ls.len(),
    decreases ls.len() - from,
{
    if from < ls.len() && ls[from as int].idx <= idx {
        lemma_insert_pos_bound(ls, idx, from + 1);
    }
}

proof fn lemma_add_entry_underlines(ps: Seq<PartView>, e: Entry)
    requires
        all_underlines(ps),
        e.2.kind == AnnotationKind::Single,
    ensures
        all_underlines(add_entry(ps, e)),
{
    let r = add_entry(ps, e);
    let found = find_part(ps, e.0, 0);
    if found < ps.len() {
        lemma_insert_pos_bound(ps[found as int].lines, e.1, 0);
    }
    assert forall|p: int, l: int, a: int|
        0 <= p < r.len() && 0 <= l < r[p].lines.len() && 0 <= a < r[p].lines[l].annotations.len()
            implies (#[trigger] r[p].lines[l].annotations[a]).kind == AnnotationKind::Single by {
        if found < ps.len() && p == found {
            let part = ps[p];
            let q = find_line(part.lines, e.1, 0);
            if q < part.lines.len() {
                if l == q {
                    if a < part.lines[l].annotations.len() {
                        assert(r[p].lines[l].annotations[a] == ps[p].lines[l].annotations[a]);
                    }
                } else {
                    assert(r[p].lines[l] == ps[p].lines[l]);
                    assert(r[p].lines[l].annotations[a] == ps[p].lines[l].annotations[a]);
                }
            } else {
                let pos = insert_pos(part.lines, e.1, 0) as int;
                if l < pos {
                    assert(r[p].lines[l] == ps[p].lines[l]);
                    assert(r[p].lines[l].annotations[a] == ps[p].lines[l].annotations[a]);
                } else if l > pos {
                    assert(r[p].lines[l] == ps[p].lines[l - 1]);
                    assert(r[p].lines[l].annotations[a] == ps[p].lines[l - 1].annotations[a]);
                }
            }
        } else if p < ps.len() {
            assert(r[p] == ps[p]);
            assert(r[p].lines[l].annotations[a] == ps[p].lines[l].annotations[a]);
        }
    }
}

proof fn lemma_group_underlines(es: Seq<Entry>)
    requires
        forall|k: int| 0 <= k < es.len() ==> (#[trigger] es[k]).2.kind == AnnotationKind::Single,
    ensures
        all_underlines(group(es)),
    decreases es.len(),
{
    if es.len() > 0 {
        let init = es.drop_last();
        assert forall|k: int| 0 <= k < init.len() implies (#[trigger] init[k]).2.kind
            == AnnotationKind::Single by {
            assert(init[k] == es[k]);
        }
        lemma_group_underlines(init);
        lemma_add_entry_underlines(group(init), es.last());
    }
}

proof fn lemma_insert_desc_underlines(s: Seq<Annotation>, x: Annotation)
    requires
        forall|k: int| 0 <= k < s.len() ==> (#[trigger] s[k]).kind == AnnotationKind::Single,
        x.kind == AnnotationKind::Single,
    ensures
        forall|k: int|
            0 <= k < insert_desc(s, x).len() ==> (#[trigger] insert_desc(s, x)[k]).kind
                == AnnotationKind::Single,
    decreases s.len(),
{
    if s.len() > 0 && s[0].start > x.start {
        let t = s.drop_first();
        assert forall|k: int| 0 <= k < t.len() implies (#[trigger] t[k]).kind == AnnotationKind::Single by {
            assert(t[k] == s[k + 1]);
        }
        lemma_insert_desc_underlines(t, x);
        assert forall|k: int| 0 <= k < insert_desc(s, x).len() implies (#[trigger] insert_desc(s, x)[k]).kind
            == AnnotationKind::Single by {
            if k > 0 {
                assert(insert_desc(s, x)[k] == insert_desc(t, x)[k - 1]);
            }
        }
    } else if s.len() > 0 {
        assert forall|k: int| 0 <= k < insert_desc(s, x).len() implies (#[trigger] insert_desc(s, x)[k]).kind
            == AnnotationKind::Single by {
            if k > 0 {
                assert(insert_desc(s, x)[k] == s[k - 1]);
            }
        }
    }
}

proof fn lemma_order_line_underlines(s: Seq<Annotation>)
    requires
        forall|k: int| 0 <= k < s.len() ==> (#[trigger] s[k]).kind == AnnotationKind::Single,
    ensures
        forall|k: int|
            0 <= k < order_line(s).len() ==> (#[trigger] order_line(s)[k]).kind == AnnotationKind::Single,
    decreases s.len(),
{
    if s.len() > 0 {
        let init = s.drop_last();
        assert forall|k: int| 0 <= k < init.len() implies (#[trigger] init[k]).kind
            == AnnotationKind::Single by {
            assert(init[k] == s[k]);
        }
        lemma_order_line_underlines(init);
        lemma_insert_desc_underlines(order_line(init), s.last());
    }
}

proof fn lemma_finish_lines_underlines(ls: Seq<LineView>)
    requires
        forall|l: int, a: int|
            0 <= l < ls.len() && 0 <= a < ls[l].annotations.len() ==> (#[trigger] ls[l].annotations[a]).kind
                == AnnotationKind::Single,
    ensures
        forall|l: int, a: int|
            0 <= l < finish_lines(ls).len() && 0 <= a < finish_lines(ls)[l].annotations.len()
                ==> (#[trigger] finish_lines(ls)[l].annotations[a]).kind == AnnotationKind::Single,
    decreases ls.len(),
{
    if ls.len() > 0 {
        let init = ls.drop_last();
        assert forall|l: int, a: int|
            0 <= l < init.len() && 0 <= a < init[l].annotations.len() implies (#[trigger] init[l].annotations[a]).kind
                == AnnotationKind::Single by {
            assert(init[l] == ls[l]);
        }
        lemma_finish_lines_underlines(init);
        let last = ls.last();
        assert forall|k: int| 0 <= k < last.annotations.len() implies (#[trigger] last.annotations[k]).kind
            == AnnotationKind::Single by {
            assert(ls[ls.len() - 1].annotations[k] == last.annotations[k]);
        }
        lemma_order_line_underlines(last.annotations);
    }
}

/// A diagnostic whose labels all stay on one line is laid out as one
/// underline per label with a span, in label order, on that label's file
/// and line, covering its columns (an empty span widened to one column);
/// the finished layout holds each of these exactly as often as it is
/// produced, and no bracket piece appears anywhere in it.
pub proof fn lemma_single_line_layout(ls: Seq<Label>)
    requires
        all_single_line(ls),
    ensures
        emitted(ls).len() == spanned(ls).len(),
        forall|k: int|
            0 <= k < emitted(ls).len() ==> {
                let l = #[trigger] spanned(ls)[k];
                let sp = l.span.unwrap();
                emitted(ls)[k] == (sp.file, sp.start.line, single_of(l, sp))
            },
        all_underlines(layout(ls)),
        forall|x: Entry|
            x.2.kind == AnnotationKind::Single ==> #[trigger] parts_count(layout(ls), x) == occ(
                emitted(ls),
                x,
            ),
    decreases ls.len(),
{
    assert forall|x: Entry| x.2.kind == AnnotationKind::Single implies #[trigger] parts_count(
        layout(ls),
        x,
    ) == occ(emitted(ls), x) by {
        lemma_layout_counts(ls, x);
    }
    lemma_single_line_parts(ls);
    assert(emit_all(place_all(sort_multis(multis(ls)))) =~= Seq::<Entry>::empty());
    assert(emitted(ls) =~= singles(ls));
    assert forall|k: int| 0 <= k < emitted(ls).len() implies (#[trigger] emitted(ls)[k]).2.kind
        == AnnotationKind::Single by {
        let l = spanned(ls)[k];
        assert(singles(ls)[k].2.kind == AnnotationKind::Single);
    }
    lemma_group_underlines(emitted(ls));
    let ps = group(emitted(ls));
    let fp = finish_parts(ps);
    assert forall|p: int, l: int, a: int|
        0 <= p < fp.len() && 0 <= l < fp[p].lines.len() && 0 <= a < fp[p].lines[l].annotations.len()
            implies (#[trigger] fp[p].lines[l].annotations[a]).kind == AnnotationKind::Single by {
        let lines = ps[p].lines;
        assert forall|l2: int, a2: int|
            0 <= l2 < lines.len() && 0 <= a2 < lines[l2].annotations.len() implies (#[trigger] lines[l2].annotations[a2]).kind
                == AnnotationKind::Single by {
            assert(ps[p].lines[l2].annotations[a2] == lines[l2].annotations[a2]);
        }
        lemma_finish_lines_underlines(lines);
        assert(fp[p].lines == finish_lines(lines));
    }
}

proof fn lemma_single_line_parts(ls: Seq<Label>)
    requires
        all_single_line(ls),
    ensures
        multis(ls).len() == 0,
        singles(ls).len() == spanned(ls).len(),
        forall|k: int|
            0 <= k < singles(ls).len() ==> {
                let l = #[trigger] spanned(ls)[k];
                let sp = l.span.unwrap();
                &&& l.span is Some
                &&& singles(ls)[k] == (sp.file, sp.start.line, single_of(l, sp))
                &&& singles(ls)[k].2.kind == AnnotationKind::Single
            },
    decreases ls.len(),
{
    if ls.len() > 0 {
        let init = ls.drop_last();
        assert forall|i: int| 0 <= i < init.len() implies match (#[trigger] init[i]).span {
            Some(sp) => !is_multiline(sp),
            None => true,
        } by {
            assert(init[i] == ls[i]);
        }
        lemma_single_line_parts(init);
        assert(match ls[ls.len() - 1].span {
            Some(sp) => !is_multiline(sp),
            None => true,
        });
    }
}

impl Diagnostic {
    /// Whether every label's span can be laid out by `build`.
    pub fn is_well_formed(&self) -> (r: bool)
        ensures
            r == labels_ok(self.labels@),
    {
        let mut i: usize = 0;
        while i < self.labels.len()
            invariant
                i <= self.labels@.len(),
                forall|j: int| 0 <= j < i ==> label_ok(#[trigger] self.labels@[j]),
            decreases self.labels@.len() - i,
        {
            match self.labels[i].span {
                Some(sp) => {
                    let ordered = sp.start.line < sp.end.line || (sp.start.line == sp.end.line
                        && sp.start.col <= sp.end.col);
                    if !ordered || sp.start.col == usize::MAX || sp.end.col == usize::MAX {
                        assert(!label_ok(self.labels@[i as int]));
                        return false;
                    }
                },
                None => {},
            }
            i = i + 1;
        }
        true
    }
}

/// An entry can be drawn against `files`: its file is registered, its line
/// number fits, its mark does not end before it starts, and a bracket piece
/// has a depth of at least 1.
pub open spec fn entry_drawable(e: Entry, files: &FileInterner) -> bool {
    &&& files.contains(e.0)
    &&& e.1 < usize::MAX
    &&& e.2.start <= e.2.end
    &&& !(e.2.kind is Single) ==> 1 <= nest_depth(e.2.kind)
}

/// Every label with a span points into a registered file, and its last line
/// number leaves room for the 1-based numbering of the gutter.
pub open spec fn labels_in(ls: Seq<Label>, files: &FileInterner) -> bool {
    forall|i: int|
        0 <= i < ls.len() ==> match (#[trigger] ls[i]).span {
            Some(sp) => files.contains(sp.file) && sp.end.line < usize::MAX,
            None => true,
        }
}

pub open spec fn multi_in(m: MultilineAnnotation, files: &FileInterner) -> bool {
    &&& multi_ok(m)
    &&& files.contains(m.span.file)
    &&& m.line_end < usize::MAX
}

proof fn lemma_labels_prefix(ls: Seq<Label>, files: &FileInterner)
    requires
        labels_ok(ls),
        labels_in(ls, files),
        ls.len() > 0,
    ensures
        labels_ok(ls.drop_last()),
        labels_in(ls.drop_last(), files),
        label_ok(ls.last()),
        match ls.last().span {
            Some(sp) => files.contains(sp.file) && sp.end.line < usize::MAX,
            None => true,
        },
{
    let init = ls.drop_last();
    assert forall|i: int| 0 <= i < init.len() implies label_ok(#[trigger] init[i]) by {
        assert(init[i] == ls[i]);
    }
    assert forall|i: int| 0 <= i < init.len() implies match (#[trigger] init[i]).span {
        Some(sp) => files.contains(sp.file) && sp.end.line < usize::MAX,
        None => true,
    } by {
        assert(init[i] == ls[i]);
    }
    assert(label_ok(ls[ls.len() - 1]));
    assert(match ls[ls.len() - 1].span {
        Some(sp) => files.contains(sp.file) && sp.end.line < usize::MAX,
        None => true,
    });
}

proof fn lemma_singles_drawable(ls: Seq<Label>, files: &FileInterner)
    requires
        labels_ok(ls),
        labels_in(ls, files),
    ensures
        forall|k: int| 0 <= k < singles(ls).len() ==> entry_drawable(#[trigger] singles(ls)[k], files),
    decreases ls.len(),
{
    if ls.len() > 0 {
        lemma_labels_prefix(ls, files);
        lemma_singles_drawable(ls.drop_last(), files);
        let rest = singles(ls.drop_last());
        let l = ls.last();
        assert forall|k: int| 0 <= k < singles(ls).len() implies entry_drawable(
            #[trigger] singles(ls)[k],
            files,
        ) by {
            if k < rest.len() {
                assert(singles(ls)[k] == rest[k]);
            } else {
                let sp = l.span.unwrap();
                assert(singles(ls)[k] == (sp.file, sp.start.line, single_of(l, sp)));
            }
        }
    }
}

proof fn lemma_multis_in(ls: Seq<Label>, files: &FileInterner)
    requires
        labels_ok(ls),
        labels_in(ls, files),
    ensures
        forall|k: int| 0 <= k < multis(ls).len() ==> multi_in(#[trigger] multis(ls)[k], files),
        multis(ls).len() <= ls.len(),
    decreases ls.len(),
{
    if ls.len() > 0 {
        lemma_labels_prefix(ls, files);
        lemma_multis_in(ls.drop_last(), files);
    }
}

proof fn lemma_insert_sorted_members(s: Seq<MultilineAnnotation>, x: MultilineAnnotation)
    ensures
        insert_sorted(s, x).len() == s.len() + 1,
        forall|k: int|
            0 <= k < insert_sorted(s, x).len() ==> #[trigger] insert_sorted(s, x)[k] == x || exists|i: int|
                0 <= i < s.len() && s[i] == insert_sorted(s, x)[k],
    decreases s.len(),
{
    if s.len() > 0 {
        let t = s.drop_first();
        lemma_insert_sorted_members(t, x);
        assert forall|k: int| 0 <= k < insert_sorted(s, x).len() implies #[trigger] insert_sorted(s, x)[k] == x
            || exists|i: int| 0 <= i < s.len() && s[i] == insert_sorted(s, x)[k] by {
            if k > 0 {
                if key_gt(s[0], x) {
                    assert(s[k - 1] == insert_sorted(s, x)[k]);
                } else {
                    let y = insert_sorted(t, x)[k - 1];
                    assert(insert_sorted(s, x)[k] == y);
                    if y != x {
                        let i = choose|i: int| 0 <= i < t.len() && t[i] == y;
                        assert(s[i + 1] == y);
                    }
                }
            } else if !key_gt(s[0], x) {
                assert(s[0] == insert_sorted(s, x)[0]);
            }
        }
    }
}

proof fn lemma_sort_members(s: Seq<MultilineAnnotation>)
    ensures
        sort_multis(s).len() == s.len(),
        forall|k: int|
            0 <= k < sort_multis(s).len() ==> exists|i: int|
                0 <= i < s.len() && s[i] == #[trigger] sort_multis(s)[k],
    decreases s.len(),
{
    if s.len() > 0 {
        let init = s.drop_last();
        lemma_sort_members(init);
        lemma_insert_sorted_members(sort_multis(init), s.last());
        assert forall|k: int| 0 <= k < sort_multis(s).len() implies exists|i: int|
            0 <= i < s.len() && s[i] == #[trigger] sort_multis(s)[k] by {
            let y = sort_multis(s)[k];
            if y == s.last() {
                assert(s[s.len() - 1] == y);
            } else {
                let i = choose|i: int| 0 <= i < sort_multis(init).len() && sort_multis(init)[i] == y;
                let i2 = choose|i2: int| 0 <= i2 < init.len() && init[i2] == sort_multis(init)[i];
                assert(s[i2] == y);
            }
        }
    }
}

proof fn lemma_emit_all_drawable(ms: Seq<MultilineAnnotation>, files: &FileInterner)
    requires
        forall|k: int| 0 <= k < ms.len() ==> multi_in(#[trigger] ms[k], files) && ms[k].depth >= 1,
    ensures
        forall|k: int| 0 <= k < emit_all(ms).len() ==> entry_drawable(#[trigger] emit_all(ms)[k], files),
    decreases ms.len(),
{
    if ms.len() > 0 {
        let init = ms.drop_last();
        assert forall|k: int| 0 <= k < init.len() implies multi_in(#[trigger] init[k], files) && init[k].depth >= 1 by {
            assert(init[k] == ms[k]);
        }
        lemma_emit_all_drawable(init, files);
        let m = ms.last();
        assert(multi_in(ms[ms.len() - 1], files) && ms[ms.len() - 1].depth >= 1);
        let e = emit_multi(m);
        assert forall|k: int| 0 <= k < e.len() implies entry_drawable(#[trigger] e[k], files) by {
            if !m.overlaps_exactly && k > 0 && k < e.len() - 1 {
                assert(e[k] == fillers(m)[k - 1]);
            }
        }
        let a = emit_all(init);
        assert forall|k: int| 0 <= k < emit_all(ms).len() implies entry_drawable(#[trigger] emit_all(ms)[k], files) by {
            if k < a.len() {
                assert(emit_all(ms)[k] == a[k]);
            } else {
                assert(emit_all(ms)[k] == e[k - a.len()]);
            }
        }
    }
}

proof fn lemma_emitted_drawable(ls: Seq<Label>, files: &FileInterner)
    requires
        labels_ok(ls),
        labels_in(ls, files),
        ls.len() <= usize::MAX,
    ensures
        forall|k: int| 0 <= k < emitted(ls).len() ==> entry_drawable(#[trigger] emitted(ls)[k], files),
{
    lemma_singles_drawable(ls, files);
    lemma_multis_in(ls, files);
    let ms = multis(ls);
    let sorted = sort_multis(ms);
    lemma_sort_members(ms);
    let pl = place_all(sorted);
    assert forall|k: int| 0 <= k < pl.len() implies multi_in(#[trigger] pl[k], files) && pl[k].depth >= 1 by {
        let i = choose|i: int| 0 <= i < ms.len() && ms[i] == sorted[k];
        assert(multi_in(ms[i], files));
        lemma_overlap_count_bounds(sorted, k, k);
        assert(depth_of(sorted, k) <= usize::MAX);
    }
    lemma_emit_all_drawable(pl, files);
    let a = singles(ls);
    let b = emit_all(pl);
    assert forall|k: int| 0 <= k < emitted(ls).len() implies entry_drawable(#[trigger] emitted(ls)[k], files) by {
        if k < a.len() {
            assert(emitted(ls)[k] == a[k]);
        } else {
            assert(emitted(ls)[k] == b[k - a.len()]);
        }
    }
}

pub open spec fn ann_drawable(a: Annotation) -> bool {
    &&& a.start <= a.end
    &&& !(a.kind is Single) ==> 1 <= nest_depth(a.kind)
}

pub open spec fn line_ok(l: LineView) -> bool {
    &&& l.idx < usize::MAX
    &&& forall|i: int| 0 <= i < l.annotations.len() ==> ann_drawable(#[trigger] l.annotations[i])
}

proof fn lemma_part_drawable_by_lines(p: PartView, files: &FileInterner)
    requires
        files.contains(p.file),
        forall|k: int| 0 <= k < p.lines.len() ==> line_ok(#[trigger] p.lines[k]),
    ensures
        part_drawable(p, files),
{
    assert forall|k: int| 0 <= k < p.lines.len() implies {
        let l = #[trigger] p.lines[k];
        &&& l.idx < usize::MAX
        &&& forall|i: int|
            0 <= i < l.annotations.len() ==> {
                let a = #[trigger] l.annotations[i];
                &&& a.start <= a.end
                &&& !(a.kind is Single) ==> 1 <= nest_depth(a.kind)
            }
    } by {
        let l = p.lines[k];
        assert(line_ok(l));
        assert forall|i: int| 0 <= i < l.annotations.len() implies {
            let a = #[trigger] l.annotations[i];
            &&& a.start <= a.end
            &&& !(a.kind is Single) ==> 1 <= nest_depth(a.kind)
        } by {
            assert(ann_drawable(l.annotations[i]));
        }
    }
}

proof fn lemma_lines_of_drawable(p: PartView, files: &FileInterner)
    requires
        part_drawable(p, files),
    ensures
        forall|k: int| 0 <= k < p.lines.len() ==> line_ok(#[trigger] p.lines[k]),
{
    assert forall|k: int| 0 <= k < p.lines.len() implies line_ok(#[trigger] p.lines[k]) by {
        let l = p.lines[k];
        assert forall|i: int| 0 <= i < l.annotations.len() implies ann_drawable(#[trigger] l.annotations[i]) by {
            let a = l.annotations[i];
            assert(a.start <= a.end);
        }
    }
}

proof fn lemma_add_to_part_ok(p: PartView, idx: usize, ann: Annotation)
    requires
        forall|k: int| 0 <= k < p.lines.len() ==> line_ok(#[trigger] p.lines[k]),
        idx < usize::MAX,
        ann_drawable(ann),
    ensures
        add_to_part(p, idx, ann).file == p.file,
        forall|k: int|
            0 <= k < add_to_part(p, idx, ann).lines.len() ==> line_ok(
                #[trigger] add_to_part(p, idx, ann).lines[k],
            ),
{
    let r = add_to_part(p, idx, ann);
    let q = find_line(p.lines, idx, 0);
    lemma_insert_pos_bound(p.lines, idx, 0);
    assert forall|k: int| 0 <= k < r.lines.len() implies line_ok(#[trigger] r.lines[k]) by {
        if q < p.lines.len() {
            if k == q {
                let old_l = p.lines[k];
                assert(line_ok(old_l));
                assert forall|i: int| 0 <= i < r.lines[k].annotations.len() implies ann_drawable(
                    #[trigger] r.lines[k].annotations[i],
                ) by {
                    if i < old_l.annotations.len() {
                        assert(r.lines[k].annotations[i] == old_l.annotations[i]);
                    }
                }
            } else {
                assert(r.lines[k] == p.lines[k]);
            }
        } else {
            let pos = insert_pos(p.lines, idx, 0) as int;
            if k < pos {
                assert(r.lines[k] == p.lines[k]);
            } else if k > pos {
                assert(r.lines[k] == p.lines[k - 1]);
            } else {
                assert forall|i: int| 0 <= i < r.lines[k].annotations.len() implies ann_drawable(
                    #[trigger] r.lines[k].annotations[i],
                ) by {
                    assert(r.lines[k].annotations[i] == ann);
                }
            }
        }
    }
}

proof fn lemma_group_drawable(es: Seq<Entry>, files: &FileInterner)
    requires
        forall|k: int| 0 <= k < es.len() ==> entry_drawable(#[trigger] es[k], files),
    ensures
        forall|p: int| 0 <= p < group(es).len() ==> part_drawable(#[trigger] group(es)[p], files),
    decreases es.len(),
{
    if es.len() > 0 {
        let init = es.drop_last();
        assert forall|k: int| 0 <= k < init.len() implies entry_drawable(#[trigger] init[k], files) by {
            assert(init[k] == es[k]);
        }
        lemma_group_drawable(init, files);
        let ps = group(init);
        let e = es.last();
        assert(entry_drawable(es[es.len() - 1], files));
        let r = add_entry(ps, e);
        let found = find_part(ps, e.0, 0);
        assert forall|p: int| 0 <= p < r.len() implies part_drawable(#[trigger] r[p], files) by {
            if found < ps.len() && p == found {
                lemma_lines_of_drawable(ps[p], files);
                lemma_add_to_part_ok(ps[p], e.1, e.2);
                lemma_part_drawable_by_lines(r[p], files);
            } else if p < ps.len() {
                assert(r[p] == ps[p]);
            } else {
                let np = r[p];
                assert(np.lines.len() == 1);
                assert forall|k: int| 0 <= k < np.lines.len() implies line_ok(#[trigger] np.lines[k]) by {
                    assert forall|i: int| 0 <= i < np.lines[k].annotations.len() implies ann_drawable(
                        #[trigger] np.lines[k].annotations[i],
                    ) by {
                        assert(np.lines[k].annotations[i] == e.2);
                    }
                }
                lemma_part_drawable_by_lines(np, files);
            }
        }
    }
}

proof fn lemma_insert_desc_members(s: Seq<Annotation>, x: Annotation)
    ensures
        insert_desc(s, x).len() == s.len() + 1,
        forall|k: int|
            0 <= k < insert_desc(s, x).len() ==> #[trigger] insert_desc(s, x)[k] == x || exists|i: int|
                0 <= i < s.len() && s[i] == insert_desc(s, x)[k],
    decreases s.len(),
{
    if s.len() > 0 {
        let t = s.drop_first();
        lemma_insert_desc_members(t, x);
        assert forall|k: int| 0 <= k < insert_desc(s, x).len() implies #[trigger] insert_desc(s, x)[k] == x
            || exists|i: int| 0 <= i < s.len() && s[i] == insert_desc(s, x)[k] by {
            if k > 0 {
                if s[0].start <= x.start {
                    assert(s[k - 1] == insert_desc(s, x)[k]);
                } else {
                    let y = insert_desc(t, x)[k - 1];
                    assert(insert_desc(s, x)[k] == y);
                    if y != x {
                        let i = choose|i: int| 0 <= i < t.len() && t[i] == y;
                        assert(s[i + 1] == y);
                    }
                }
            } else if s[0].start > x.start {
                assert(s[0] == insert_desc(s, x)[0]);
            }
        }
    }
}

proof fn lemma_order_line_members(s: Seq<Annotation>)
    ensures
        forall|k: int|
            0 <= k < order_line(s).len() ==> exists|i: int|
                0 <= i < s.len() && s[i] == #[trigger] order_line(s)[k],
    decreases s.len(),
{
    if s.len() > 0 {
        let init = s.drop_last();
        lemma_order_line_members(init);
        lemma_insert_desc_members(order_line(init), s.last());
        assert forall|k: int| 0 <= k < order_line(s).len() implies exists|i: int|
            0 <= i < s.len() && s[i] == #[trigger] order_line(s)[k] by {
            let y = order_line(s)[k];
            if y == s.last() {
                assert(s[s.len() - 1] == y);
            } else {
                let i = choose|i: int| 0 <= i < order_line(init).len() && order_line(init)[i] == y;
                let i2 = choose|i2: int| 0 <= i2 < init.len() && init[i2] == order_line(init)[i];
                assert(s[i2] == y);
            }
        }
    }
}

proof fn lemma_finish_lines_ok(ls: Seq<LineView>)
    requires
        forall|k: int| 0 <= k < ls.len() ==> line_ok(#[trigger] ls[k]),
    ensures
        forall|k: int| 0 <= k < finish_lines(ls).len() ==> line_ok(#[trigger] finish_lines(ls)[k]),
    decreases ls.len(),
{
    if ls.len() > 0 {
        let init = ls.drop_last();
        assert forall|k: int| 0 <= k < init.len() implies line_ok(#[trigger] init[k]) by {
            assert(init[k] == ls[k]);
        }
        lemma_finish_lines_ok(init);
        let l = ls.last();
        assert(line_ok(ls[ls.len() - 1]));
        lemma_order_line_members(l.annotations);
        let nl = LineView { idx: l.idx, annotations: order_line(l.annotations) };
        assert forall|i: int| 0 <= i < nl.annotations.len() implies ann_drawable(#[trigger] nl.annotations[i]) by {
            let j = choose|j: int| 0 <= j < l.annotations.len() && l.annotations[j] == nl.annotations[i];
        }
        assert(line_ok(nl));
        let rest = finish_lines(init);
        assert forall|k: int| 0 <= k < finish_lines(ls).len() implies line_ok(#[trigger] finish_lines(ls)[k]) by {
            if k < rest.len() {
                assert(finish_lines(ls)[k] == rest[k]);
            } else {
                assert(finish_lines(ls)[k] == nl);
            }
        }
    }
}

/// The layout of labels that are well formed and point into registered
/// files can always be drawn: `Snippet::write` accepts what `build` makes.
pub proof fn lemma_layout_drawable(ls: Seq<Label>, files: &FileInterner)
    requires
        labels_ok(ls),
        labels_in(ls, files),
        ls.len() <= usize::MAX,
    ensures
        forall|p: int| 0 <= p < layout(ls).len() ==> part_drawable(#[trigger] layout(ls)[p], files),
{
    lemma_emitted_drawable(ls, files);
    let ps = group(emitted(ls));
    lemma_group_drawable(emitted(ls), files);
    assert forall|p: int| 0 <= p < layout(ls).len() implies part_drawable(#[trigger] layout(ls)[p], files) by {
        lemma_lines_of_drawable(ps[p], files);
        lemma_finish_lines_ok(ps[p].lines);
        assert(layout(ls)[p] == finish_part(ps[p]));
        lemma_part_drawable_by_lines(layout(ls)[p], files);
    }
}

/// The placed brackets of a diagnostic with labels `ls`, in drawing order.
pub open spec fn brackets(ls: Seq<Label>) -> Seq<MultilineAnnotation> {
    place_all(sort_multis(multis(ls)))
}

/// The parts hold annotation `a` on line `idx` of file `f`.
pub open spec fn holds(ps: Seq<PartView>, f: FileId, idx: usize, a: Annotation) -> bool {
    exists|p: int, k: int, i: int|
        0 <= p < ps.len() && 0 <= k < ps[p].lines.len() && 0 <= i < ps[p].lines[k].annotations.len()
            && ps[p].file == f && ps[p].lines[k].idx == idx
            && #[trigger] ps[p].lines[k].annotations[i] == a
}

/// No two parts share a file, and no two lines of a part share an index.
pub open spec fn parts_distinct(ps: Seq<PartView>) -> bool {
    &&& forall|p: int, q: int|
        0 <= p < ps.len() && 0 <= q < ps.len() && p != q ==> #[trigger] ps[p].file != #[trigger] ps[q].file
    &&& forall|p: int| 0 <= p < ps.len() ==> lines_distinct(#[trigger] ps[p].lines)
}

pub open spec fn lines_distinct(ls: Seq<LineView>) -> bool {
    forall|k: int, k2: int|
        0 <= k < ls.len() && 0 <= k2 < ls.len() && k != k2 ==> #[trigger] ls[k].idx != #[trigger] ls[k2].idx
}

proof fn lemma_find_part(ps: Seq<PartView>, f: FileId, from: nat)
    requires
        from <= ps.len(),
    ensures
        from <= find_part(ps, f, from) <= ps.len(),
        find_part(ps, f, from) < ps.len() ==> ps[find_part(ps, f, from) as int].file == f,
        forall|i: int| from <= i < find_part(ps, f, from) ==> (#[trigger] ps[i]).file != f,
    decreases ps.len() - from,
{
    if from < ps.len() && ps[from as int].file != f {
        lemma_find_part(ps, f, from + 1);
    }
}

proof fn lemma_find_line(ls: Seq<LineView>, idx: usize, from: nat)
    requires
        from <= ls.len(),
    ensures
        from <= find_line(ls, idx, from) <= ls.len(),
        find_line(ls, idx, from) < ls.len() ==> ls[find_line(ls, idx, from) as int].idx == idx,
        forall|i: int| from <= i < find_line(ls, idx, from) ==> (#[trigger] ls[i]).idx != idx,
    decreases ls.len() - from,
{
    if from < ls.len() && ls[from as int].idx != idx {
        lemma_find_line(ls, idx, from + 1);
    }
}

/// Adding an entry keeps every annotation already held, puts the new one in
/// place, and keeps files and line indices distinct.
proof fn lemma_add_entry_holds(ps: Seq<PartView>, e: Entry)
    requires
        parts_distinct(ps),
    ensures
        parts_distinct(add_entry(ps, e)),
        holds(add_entry(ps, e), e.0, e.1, e.2),
        forall|f: FileId, idx: usize, a: Annotation|
            holds(ps, f, idx, a) ==> #[trigger] holds(add_entry(ps, e), f, idx, a),
{
    let r = add_entry(ps, e);
    let found = find_part(ps, e.0, 0);
    lemma_find_part(ps, e.0, 0);
    if found < ps.len() {
        let fp = found as int;
        let part = ps[fp];
        let q = find_line(part.lines, e.1, 0);
        lemma_find_line(part.lines, e.1, 0);
        lemma_insert_pos_bound(part.lines, e.1, 0);
        let pos = insert_pos(part.lines, e.1, 0) as int;
        let np = r[fp];
        assert(lines_distinct(part.lines));
        // Lines stay distinct.
        assert forall|k: int, k2: int|
            0 <= k < np.lines.len() && 0 <= k2 < np.lines.len() && k != k2 implies #[trigger] np.lines[k].idx
            != #[trigger] np.lines[k2].idx by {
            if q >= part.lines.len() {
                if k != pos && k2 != pos {
                    let a = if k < pos { k } else { k - 1 };
                    let b = if k2 < pos { k2 } else { k2 - 1 };
                    assert(np.lines[k] == part.lines[a]);
                    assert(np.lines[k2] == part.lines[b]);
                } else if k == pos {
                    let b = if k2 < pos { k2 } else { k2 - 1 };
                    assert(np.lines[k2] == part.lines[b]);
                } else {
                    let a = if k < pos { k } else { k - 1 };
                    assert(np.lines[k] == part.lines[a]);
                }
            } else {
                assert(np.lines[k].idx == part.lines[k].idx);
                assert(np.lines[k2].idx == part.lines[k2].idx);
            }
        }
        assert forall|p: int, p2: int|
            0 <= p < r.len() && 0 <= p2 < r.len() && p != p2 implies #[trigger] r[p].file != #[trigger] r[p2].file by {
            assert(r[p].file == ps[p].file);
            assert(r[p2].file == ps[p2].file);
        }
        assert forall|p: int| 0 <= p < r.len() implies lines_distinct(#[trigger] r[p].lines) by {
            if p != fp {
                assert(r[p] == ps[p]);
            }
        }
        // The new annotation.
        if q < part.lines.len() {
            let qi = q as int;
            let n = part.lines[qi].annotations.len() as int;
            assert(r[fp].lines[qi].annotations[n] == e.2);
        } else {
            assert(r[fp].lines[pos].annotations[0] == e.2);
        }
        // The old ones.
        assert forall|f: FileId, idx: usize, a: Annotation| holds(ps, f, idx, a) implies #[trigger] holds(
            r,
            f,
            idx,
            a,
        ) by {
            let (p, k, i) = choose|p: int, k: int, i: int|
                0 <= p < ps.len() && 0 <= k < ps[p].lines.len() && 0 <= i < ps[p].lines[k].annotations.len()
                    && ps[p].file == f && ps[p].lines[k].idx == idx
                    && #[trigger] ps[p].lines[k].annotations[i] == a;
            if p != fp {
                assert(r[p] == ps[p]);
                assert(r[p].lines[k].annotations[i] == a);
            } else if q < part.lines.len() {
                assert(r[p].lines[k].annotations[i] == a);
            } else if k < pos {
                assert(r[p].lines[k] == ps[p].lines[k]);
                assert(r[p].lines[k].annotations[i] == a);
            } else {
                assert(r[p].lines[k + 1] == ps[p].lines[k]);
                assert(r[p].lines[k + 1].annotations[i] == a);
            }
        }
    } else {
        let n = ps.len() as int;
        assert(r[n].lines[0].annotations[0] == e.2);
        assert forall|p: int, p2: int|
            0 <= p < r.len() && 0 <= p2 < r.len() && p != p2 implies #[trigger] r[p].file != #[trigger] r[p2].file by {
            if p < n {
                assert(r[p] == ps[p]);
            }
            if p2 < n {
                assert(r[p2] == ps[p2]);
            }
        }
        assert forall|p: int| 0 <= p < r.len() implies lines_distinct(#[trigger] r[p].lines) by {
            if p < n {
                assert(r[p] == ps[p]);
            }
        }
        assert forall|f: FileId, idx: usize, a: Annotation| holds(ps, f, idx, a) implies #[trigger] holds(
            r,
            f,
            idx,
            a,
        ) by {
            let (p, k, i) = choose|p: int, k: int, i: int|
                0 <= p < ps.len() && 0 <= k < ps[p].lines.len() && 0 <= i < ps[p].lines[k].annotations.len()
                    && ps[p].file == f && ps[p].lines[k].idx == idx
                    && #[trigger] ps[p].lines[k].annotations[i] == a;
            assert(r[p] == ps[p]);
            assert(r[p].lines[k].annotations[i] == a);
        }
    }
}

/// Grouping keeps every entry, on its file and line, with distinct files and
/// line indices.
proof fn lemma_group_holds(es: Seq<Entry>)
    ensures
        parts_distinct(group(es)),
        forall|t: int| 0 <= t < es.len() ==> holds(group(es), (#[trigger] es[t]).0, es[t].1, es[t].2),
    decreases es.len(),
{
    if es.len() > 0 {
        let init = es.drop_last();
        lemma_group_holds(init);
        lemma_add_entry_holds(group(init), es.last());
        assert forall|t: int| 0 <= t < es.len() implies holds(group(es), (#[trigger] es[t]).0, es[t].1, es[t].2) by {
            if t < init.len() {
                assert(es[t] == init[t]);
                assert(holds(group(init), init[t].0, init[t].1, init[t].2));
            }
        }
    }
}

proof fn lemma_insert_desc_contains(s: Seq<Annotation>, x: Annotation)
    ensures
        exists|k: int| 0 <= k < insert_desc(s, x).len() && insert_desc(s, x)[k] == x,
        forall|i: int|
            0 <= i < s.len() ==> exists|k: int|
                0 <= k < insert_desc(s, x).len() && insert_desc(s, x)[k] == #[trigger] s[i],
    decreases s.len(),
{
    if s.len() == 0 {
        assert(insert_desc(s, x)[0] == x);
    } else if s[0].start <= x.start {
        assert(insert_desc(s, x)[0] == x);
        assert forall|i: int| 0 <= i < s.len() implies exists|k: int|
            0 <= k < insert_desc(s, x).len() && insert_desc(s, x)[k] == #[trigger] s[i] by {
            assert(insert_desc(s, x)[i + 1] == s[i]);
        }
    } else {
        let t = s.drop_first();
        lemma_insert_desc_contains(t, x);
        let kx = choose|k: int| 0 <= k < insert_desc(t, x).len() && insert_desc(t, x)[k] == x;
        assert(insert_desc(s, x)[kx + 1] == x);
        assert forall|i: int| 0 <= i < s.len() implies exists|k: int|
            0 <= k < insert_desc(s, x).len() && insert_desc(s, x)[k] == #[trigger] s[i] by {
            if i == 0 {
                assert(insert_desc(s, x)[0] == s[0]);
            } else {
                assert(t[i - 1] == s[i]);
                let k = choose|k: int| 0 <= k < insert_desc(t, x).len() && insert_desc(t, x)[k] == t[i - 1];
                assert(insert_desc(s, x)[k + 1] == s[i]);
            }
        }
    }
}

/// Putting a line in drawing order loses none of its annotations.
proof fn lemma_order_line_contains(s: Seq<Annotation>)
    ensures
        forall|i: int|
            0 <= i < s.len() ==> exists|k: int|
                0 <= k < order_line(s).len() && order_line(s)[k] == #[trigger] s[i],
    decreases s.len(),
{
    if s.len() > 0 {
        let init = s.drop_last();
        lemma_order_line_contains(init);
        lemma_insert_desc_contains(order_line(init), s.last());
        assert forall|i: int| 0 <= i < s.len() implies exists|k: int|
            0 <= k < order_line(s).len() && order_line(s)[k] == #[trigger] s[i] by {
            if i < init.len() {
                assert(init[i] == s[i]);
                let k0 = choose|k: int| 0 <= k < order_line(init).len() && order_line(init)[k] == init[i];
                assert(order_line(init)[k0] == s[i]);
                let k1 = choose|k: int|
                    0 <= k < insert_desc(order_line(init), s.last()).len() && insert_desc(
                        order_line(init),
                        s.last(),
                    )[k] == order_line(init)[k0];
                assert(order_line(s)[k1] == s[i]);
            } else {
                assert(s[i] == s.last());
                let k1 = choose|k: int|
                    0 <= k < insert_desc(order_line(init), s.last()).len() && insert_desc(
                        order_line(init),
                        s.last(),
                    )[k] == s.last();
                assert(order_line(s)[k1] == s[i]);
            }
        }
    }
}

/// Each finished line is a line of the unfinished part, put in drawing order.
proof fn lemma_finish_lines_origin(ls: Seq<LineView>)
    ensures
        forall|k: int|
            0 <= k < finish_lines(ls).len() ==> exists|k0: int|
                0 <= k0 < ls.len() && (#[trigger] finish_lines(ls)[k]).idx == ls[k0].idx
                    && finish_lines(ls)[k].annotations == order_line(ls[k0].annotations),
    decreases ls.len(),
{
    if ls.len() > 0 {
        let init = ls.drop_last();
        lemma_finish_lines_origin(init);
        let rest = finish_lines(init);
        assert forall|k: int| 0 <= k < finish_lines(ls).len() implies exists|k0: int|
            0 <= k0 < ls.len() && (#[trigger] finish_lines(ls)[k]).idx == ls[k0].idx
                && finish_lines(ls)[k].annotations == order_line(ls[k0].annotations) by {
            if k < rest.len() {
                assert(finish_lines(ls)[k] == rest[k]);
                let k0 = choose|k0: int|
                    0 <= k0 < init.len() && rest[k].idx == init[k0].idx && rest[k].annotations
                        == order_line(init[k0].annotations);
                assert(init[k0] == ls[k0]);
            } else {
                assert(ls[ls.len() - 1] == ls.last());
            }
        }
    }
}

proof fn lemma_emit_all_contains(ms: Seq<MultilineAnnotation>, j: int, u: int)
    requires
        0 <= j < ms.len(),
        0 <= u < emit_multi(ms[j]).len(),
    ensures
        exists|t: int| 0 <= t < emit_all(ms).len() && emit_all(ms)[t] == emit_multi(ms[j])[u],
    decreases ms.len(),
{
    let init = ms.drop_last();
    if j == ms.len() - 1 {
        let t = emit_all(init).len() + u;
        assert(emit_all(ms)[t] == emit_multi(ms[j])[u]);
    } else {
        assert(init[j] == ms[j]);
        lemma_emit_all_contains(init, j, u);
        let t = choose|t: int| 0 <= t < emit_all(init).len() && emit_all(init)[t] == emit_multi(init[j])[u];
        assert(emit_all(ms)[t] == emit_all(init)[t]);
    }
}

/// Bars persist: every drawn line strictly inside the lines of a bracket that
/// is not an exact duplicate carries that bracket's bar, a `MultiLine` at
/// the bracket's depth.
pub proof fn lemma_bars_persist(ls: Seq<Label>, j: int, p: int, k: int)
    requires
        0 <= j < brackets(ls).len(),
        !brackets(ls)[j].overlaps_exactly,
        0 <= p < layout(ls).len(),
        layout(ls)[p].file == brackets(ls)[j].span.file,
        0 <= k < layout(ls)[p].lines.len(),
        brackets(ls)[j].line_start < layout(ls)[p].lines[k].idx < brackets(ls)[j].line_end,
    ensures
        exists|i: int|
            0 <= i < layout(ls)[p].lines[k].annotations.len()
                && layout(ls)[p].lines[k].annotations[i] == brackets(ls)[j].spec_as_line(),
        brackets(ls)[j].spec_as_line().kind == AnnotationKind::MultiLine(brackets(ls)[j].depth),
{
    let m = brackets(ls)[j];
    let es = emitted(ls);
    let g = group(es);
    let l = layout(ls);
    let idx = l[p].lines[k].idx;
    let e: Entry = (m.span.file, idx, m.spec_as_line());
    // The filler entry is emitted.
    let u = idx - m.line_start;
    assert(emit_multi(m)[u] == fillers(m)[u - 1]);
    assert(emit_multi(m)[u] == e);
    lemma_emit_all_contains(brackets(ls), j, u);
    let t0 = choose|t: int| 0 <= t < emit_all(brackets(ls)).len() && emit_all(brackets(ls))[t] == emit_multi(
        m,
    )[u];
    let t = singles(ls).len() + t0;
    assert(es[t] == e);
    // Grouping holds it, in the one part of its file, on the one line of its index.
    lemma_group_holds(es);
    assert(holds(g, es[t].0, es[t].1, es[t].2));
    let (p1, k1, i1) = choose|p1: int, k1: int, i1: int|
        0 <= p1 < g.len() && 0 <= k1 < g[p1].lines.len() && 0 <= i1 < g[p1].lines[k1].annotations.len()
            && g[p1].file == e.0 && g[p1].lines[k1].idx == e.1
            && #[trigger] g[p1].lines[k1].annotations[i1] == e.2;
    assert(l[p] == finish_part(g[p]));
    assert(p1 == p);
    // Finishing keeps it on that line.
    lemma_finish_lines_origin(g[p].lines);
    assert(l[p].lines[k] == finish_lines(g[p].lines)[k]);
    let k0 = choose|k0: int|
        0 <= k0 < g[p].lines.len() && finish_lines(g[p].lines)[k].idx == g[p].lines[k0].idx
            && finish_lines(g[p].lines)[k].annotations == order_line(g[p].lines[k0].annotations);
    assert(lines_distinct(g[p].lines));
    assert(k0 == k1);
    lemma_order_line_contains(g[p].lines[k1].annotations);
    let i = choose|i: int|
        0 <= i < order_line(g[p].lines[k1].annotations).len() && order_line(g[p].lines[k1].annotations)[i]
            == g[p].lines[k1].annotations[i1];
    assert(l[p].lines[k].annotations[i] == m.spec_as_line());
}

proof fn lemma_finish_lines_keeps(ls: Seq<LineView>, k0: int)
    requires
        0 <= k0 < ls.len(),
        line_needed(ls[k0]),
    ensures
        exists|k: int|
            0 <= k < finish_lines(ls).len() && finish_lines(ls)[k] == (LineView {
                idx: ls[k0].idx,
                annotations: order_line(ls[k0].annotations),
            }),
    decreases ls.len(),
{
    let init = ls.drop_last();
    let rest = finish_lines(init);
    if k0 == ls.len() - 1 {
        assert(finish_lines(ls)[rest.len() as int] == (LineView {
            idx: ls[k0].idx,
            annotations: order_line(ls[k0].annotations),
        }));
    } else {
        assert(init[k0] == ls[k0]);
        lemma_finish_lines_keeps(init, k0);
        let k = choose|k: int|
            0 <= k < rest.len() && rest[k] == (LineView {
                idx: init[k0].idx,
                annotations: order_line(init[k0].annotations),
            });
        assert(finish_lines(ls)[k] == rest[k]);
    }
}

proof fn lemma_multis_len(ls: Seq<Label>)
    ensures
        multis(ls).len() <= ls.len(),
    decreases ls.len(),
{
    if ls.len() > 0 {
        lemma_multis_len(ls.drop_last());
    }
}

/// Every mark the layout of `ls` produces, other than a bar-only filler,
/// is in the finished layout, on its file and line.
pub proof fn lemma_layout_keeps_marks(ls: Seq<Label>, t: int)
    requires
        0 <= t < emitted(ls).len(),
        !(emitted(ls)[t].2.kind is MultiLine),
    ensures
        holds(layout(ls), emitted(ls)[t].0, emitted(ls)[t].1, emitted(ls)[t].2),
{
    let es = emitted(ls);
    let e = es[t];
    let g = group(es);
    let l = layout(ls);
    lemma_group_holds(es);
    assert(holds(g, es[t].0, es[t].1, es[t].2));
    let (p, k1, i1) = choose|p: int, k1: int, i1: int|
        0 <= p < g.len() && 0 <= k1 < g[p].lines.len() && 0 <= i1 < g[p].lines[k1].annotations.len()
            && g[p].file == e.0 && g[p].lines[k1].idx == e.1
            && #[trigger] g[p].lines[k1].annotations[i1] == e.2;
    assert(line_needed(g[p].lines[k1]));
    lemma_finish_lines_keeps(g[p].lines, k1);
    let k = choose|k: int|
        0 <= k < finish_lines(g[p].lines).len() && finish_lines(g[p].lines)[k] == (LineView {
            idx: g[p].lines[k1].idx,
            annotations: order_line(g[p].lines[k1].annotations),
        });
    lemma_order_line_contains(g[p].lines[k1].annotations);
    let i = choose|i: int|
        0 <= i < order_line(g[p].lines[k1].annotations).len() && order_line(g[p].lines[k1].annotations)[i]
            == g[p].lines[k1].annotations[i1];
    assert(l[p] == finish_part(g[p]));
    assert(l[p].lines[k].annotations[i] == e.2);
}

proof fn lemma_bracket_entry(ls: Seq<Label>, j: int, u: int)
    requires
        0 <= j < brackets(ls).len(),
        0 <= u < emit_multi(brackets(ls)[j]).len(),
    ensures
        exists|t: int| 0 <= t < emitted(ls).len() && emitted(ls)[t] == emit_multi(brackets(ls)[j])[u],
{
    lemma_emit_all_contains(brackets(ls), j, u);
    let t0 = choose|t: int|
        0 <= t < emit_all(brackets(ls)).len() && emit_all(brackets(ls))[t] == emit_multi(brackets(ls)[j])[u];
    assert(emitted(ls)[singles(ls).len() + t0] == emit_multi(brackets(ls)[j])[u]);
}

/// A bracket that is not an exact duplicate is drawn at its nesting depth:
/// its opening mark (`MultiStart(depth)`) on its first line and its closing
/// mark with its label (`MultiEnd(depth)`) on its last, where the depth is
/// one more than the number of brackets sorted before it that overlap its
/// lines without covering exactly its span.
pub proof fn lemma_bracket_drawn_at_depth(ls: Seq<Label>, j: int)
    requires
        0 <= j < brackets(ls).len(),
        !brackets(ls)[j].overlaps_exactly,
        ls.len() <= usize::MAX,
    ensures
        brackets(ls)[j].depth == depth_of(sort_multis(multis(ls)), j),
        holds(
            layout(ls),
            brackets(ls)[j].span.file,
            brackets(ls)[j].line_start,
            brackets(ls)[j].spec_as_start(),
        ),
        holds(
            layout(ls),
            brackets(ls)[j].span.file,
            brackets(ls)[j].line_end,
            brackets(ls)[j].spec_as_end(),
        ),
        brackets(ls)[j].spec_as_start().kind == AnnotationKind::MultiStart(brackets(ls)[j].depth),
        brackets(ls)[j].spec_as_end().kind == AnnotationKind::MultiEnd(brackets(ls)[j].depth),
{
    let ms = sort_multis(multis(ls));
    lemma_multis_len(ls);
    lemma_sort_members(multis(ls));
    lemma_depth_grows_with_overlap(ms, j);
    let m = brackets(ls)[j];
    let n = emit_multi(m).len() - 1;
    lemma_bracket_entry(ls, j, 0);
    let t = choose|t: int| 0 <= t < emitted(ls).len() && emitted(ls)[t] == emit_multi(m)[0];
    lemma_layout_keeps_marks(ls, t);
    lemma_bracket_entry(ls, j, n);
    let t2 = choose|t: int| 0 <= t < emitted(ls).len() && emitted(ls)[t] == emit_multi(m)[n];
    lemma_layout_keeps_marks(ls, t2);
}

/// The later of two brackets over exactly the same span draws no opening
/// mark and no fillers: all it adds to the layout is its closing mark,
/// demoted to an underline, on its last line.
pub proof fn lemma_duplicate_drawn_as_underline(ls: Seq<Label>, j: int)
    requires
        0 <= j < brackets(ls).len(),
        brackets(ls)[j].overlaps_exactly,
    ensures
        emit_multi(brackets(ls)[j]) == seq![
            (
                brackets(ls)[j].span.file,
                brackets(ls)[j].line_end,
                Annotation { kind: AnnotationKind::Single, ..brackets(ls)[j].spec_as_end() },
            ),
        ],
        holds(
            layout(ls),
            brackets(ls)[j].span.file,
            brackets(ls)[j].line_end,
            Annotation { kind: AnnotationKind::Single, ..brackets(ls)[j].spec_as_end() },
        ),
{
    lemma_bracket_entry(ls, j, 0);
    let t = choose|t: int| 0 <= t < emitted(ls).len() && emitted(ls)[t] == emit_multi(brackets(ls)[j])[0];
    lemma_layout_keeps_marks(ls, t);
}

/// How many times `x` occurs in `s`.
pub open spec fn occ<A>(s: Seq<A>, x: A) -> nat
    decreases s.len(),
{
    if s.len() == 0 {
        0
    } else {
        occ(s.drop_last(), x) + if s.last() == x {
            1nat
        } else {
            0nat
        }
    }
}

/// How many times entry `x` occurs on line `l` of a part of file `f`.
pub open spec fn line_count(f: FileId, l: LineView, x: Entry) -> nat {
    if x.0 == f && x.1 == l.idx {
        occ(l.annotations, x.2)
    } else {
        0
    }
}

pub open spec fn lines_count(f: FileId, ls: Seq<LineView>, x: Entry) -> nat
    decreases ls.len(),
{
    if ls.len() == 0 {
        0
    } else {
        lines_count(f, ls.drop_last(), x) + line_count(f, ls.last(), x)
    }
}

/// How many times entry `x` occurs in the parts.
pub open spec fn parts_count(ps: Seq<PartView>, x: Entry) -> nat
    decreases ps.len(),
{
    if ps.len() == 0 {
        0
    } else {
        parts_count(ps.drop_last(), x) + lines_count(ps.last().file, ps.last().lines, x)
    }
}

proof fn lemma_occ_concat<A>(a: Seq<A>, b: Seq<A>, x: A)
    ensures
        occ(a + b, x) == occ(a, x) + occ(b, x),
    decreases b.len(),
{
    if b.len() == 0 {
        assert(a + b =~= a);
    } else {
        lemma_occ_concat(a, b.drop_last(), x);
        assert((a + b).drop_last() =~= a + b.drop_last());
    }
}

proof fn lemma_occ_one<A>(z: A, y: A)
    ensures
        occ(seq![z], y) == if z == y {
            1nat
        } else {
            0nat
        },
{
    assert(seq![z].drop_last() =~= Seq::<A>::empty());
    assert(occ(Seq::<A>::empty(), y) == 0);
    assert(seq![z].last() == z);
}

proof fn lemma_occ_insert_desc(s: Seq<Annotation>, a: Annotation, y: Annotation)
    ensures
        occ(insert_desc(s, a), y) == occ(s, y) + if a == y {
            1nat
        } else {
            0nat
        },
    decreases s.len(),
{
    lemma_occ_one(a, y);
    if s.len() > 0 {
        let t = s.drop_first();
        assert(s =~= seq![s[0]] + t);
        lemma_occ_concat(seq![s[0]], t, y);
        lemma_occ_one(s[0], y);
        if s[0].start <= a.start {
            lemma_occ_concat(seq![a], s, y);
        } else {
            lemma_occ_insert_desc(t, a, y);
            lemma_occ_concat(seq![s[0]], insert_desc(t, a), y);
        }
    }
}

proof fn lemma_occ_order_line(s: Seq<Annotation>, y: Annotation)
    ensures
        occ(order_line(s), y) == occ(s, y),
    decreases s.len(),
{
    if s.len() > 0 {
        lemma_occ_order_line(s.drop_last(), y);
        lemma_occ_insert_desc(order_line(s.drop_last()), s.last(), y);
    }
}

proof fn lemma_lines_count_update(f: FileId, ls: Seq<LineView>, i: int, y: LineView, x: Entry)
    requires
        0 <= i < ls.len(),
    ensures
        lines_count(f, ls.update(i, y), x) + line_count(f, ls[i], x) == lines_count(f, ls, x)
            + line_count(f, y, x),
    decreases ls.len(),
{
    let u = ls.update(i, y);
    if i == ls.len() - 1 {
        assert(u.drop_last() =~= ls.drop_last());
    } else {
        lemma_lines_count_update(f, ls.drop_last(), i, y, x);
        assert(u.drop_last() =~= ls.drop_last().update(i, y));
    }
}

proof fn lemma_lines_count_insert(f: FileId, ls: Seq<LineView>, i: int, y: LineView, x: Entry)
    requires
        0 <= i <= ls.len(),
    ensures
        lines_count(f, ls.insert(i, y), x) == lines_count(f, ls, x) + line_count(f, y, x),
    decreases ls.len(),
{
    let u = ls.insert(i, y);
    if i == ls.len() {
        assert(u.drop_last() =~= ls);
    } else {
        lemma_lines_count_insert(f, ls.drop_last(), i, y, x);
        assert(u.drop_last() =~= ls.drop_last().insert(i, y));
    }
}

proof fn lemma_parts_count_update(ps: Seq<PartView>, i: int, y: PartView, x: Entry)
    requires
        0 <= i < ps.len(),
    ensures
        parts_count(ps.update(i, y), x) + lines_count(ps[i].file, ps[i].lines, x) == parts_count(ps, x)
            + lines_count(y.file, y.lines, x),
    decreases ps.len(),
{
    let u = ps.update(i, y);
    if i == ps.len() - 1 {
        assert(u.drop_last() =~= ps.drop_last());
    } else {
        lemma_parts_count_update(ps.drop_last(), i, y, x);
        assert(u.drop_last() =~= ps.drop_last().update(i, y));
    }
}

proof fn lemma_parts_count_add(ps: Seq<PartView>, e: Entry, x: Entry)
    ensures
        parts_count(add_entry(ps, e), x) == parts_count(ps, x) + if e == x {
            1nat
        } else {
            0nat
        },
{
    let found = find_part(ps, e.0, 0);
    lemma_find_part(ps, e.0, 0);
    let one_line = LineView { idx: e.1, annotations: seq![e.2] };
    lemma_occ_one(e.2, x.2);
    assert(seq![one_line].drop_last() =~= Seq::<LineView>::empty());
    assert(lines_count(e.0, Seq::<LineView>::empty(), x) == 0);
    assert(seq![one_line].last() == one_line);
    assert(lines_count(e.0, seq![one_line], x) == line_count(e.0, one_line, x));
    assert(line_count(e.0, one_line, x) == if e == x {
        1nat
    } else {
        0nat
    });
    if found < ps.len() {
        let fp = found as int;
        let part = ps[fp];
        let np = add_to_part(part, e.1, e.2);
        let q = find_line(part.lines, e.1, 0);
        lemma_find_line(part.lines, e.1, 0);
        lemma_insert_pos_bound(part.lines, e.1, 0);
        if q < part.lines.len() {
            let old_l = part.lines[q as int];
            let new_l = LineView { idx: e.1, annotations: old_l.annotations.push(e.2) };
            assert(new_l.annotations.drop_last() =~= old_l.annotations);
            assert(new_l.annotations.last() == e.2);
            assert(old_l.idx == e.1);
            assert(part.file == e.0);
            assert(line_count(part.file, new_l, x) == line_count(part.file, old_l, x) + if e == x {
                1nat
            } else {
                0nat
            });
            lemma_lines_count_update(part.file, part.lines, q as int, new_l, x);
            assert(np.lines == part.lines.update(q as int, new_l));
        } else {
            lemma_lines_count_insert(part.file, part.lines, insert_pos(part.lines, e.1, 0) as int, one_line, x);
            assert(part.file == e.0);
        }
        lemma_parts_count_update(ps, fp, np, x);
        assert(np.file == part.file);
        assert(lines_count(np.file, np.lines, x) == lines_count(part.file, part.lines, x) + if e == x {
            1nat
        } else {
            0nat
        });
        assert(add_entry(ps, e) == ps.update(fp, np));
    } else {
        let np = PartView { file: e.0, span: e.2.span, lines: seq![one_line] };
        assert(ps.push(np).drop_last() =~= ps);
    }
}

proof fn lemma_group_count(es: Seq<Entry>, x: Entry)
    ensures
        parts_count(group(es), x) == occ(es, x),
    decreases es.len(),
{
    if es.len() > 0 {
        lemma_group_count(es.drop_last(), x);
        lemma_parts_count_add(group(es.drop_last()), es.last(), x);
    }
}

proof fn lemma_occ_filler_free(s: Seq<Annotation>, y: Annotation)
    requires
        forall|i: int| 0 <= i < s.len() ==> (#[trigger] s[i]).kind is MultiLine,
        !(y.kind is MultiLine),
    ensures
        occ(s, y) == 0,
    decreases s.len(),
{
    if s.len() > 0 {
        assert(s.last() == s[s.len() - 1]);
        lemma_occ_filler_free(s.drop_last(), y);
    }
}

proof fn lemma_finish_lines_count(f: FileId, ls: Seq<LineView>, x: Entry)
    requires
        !(x.2.kind is MultiLine),
    ensures
        lines_count(f, finish_lines(ls), x) == lines_count(f, ls, x),
    decreases ls.len(),
{
    if ls.len() > 0 {
        let init = ls.drop_last();
        let l = ls.last();
        lemma_finish_lines_count(f, init, x);
        if line_needed(l) {
            let nl = LineView { idx: l.idx, annotations: order_line(l.annotations) };
            assert(finish_lines(init).push(nl).drop_last() =~= finish_lines(init));
            lemma_occ_order_line(l.annotations, x.2);
        } else {
            lemma_occ_filler_free(l.annotations, x.2);
        }
    }
}

proof fn lemma_finish_parts_count(ps: Seq<PartView>, x: Entry)
    requires
        !(x.2.kind is MultiLine),
    ensures
        parts_count(finish_parts(ps), x) == parts_count(ps, x),
    decreases ps.len(),
{
    if ps.len() > 0 {
        lemma_finish_parts_count(ps.drop_last(), x);
        assert(finish_parts(ps).drop_last() =~= finish_parts(ps.drop_last()));
        lemma_finish_lines_count(ps.last().file, ps.last().lines, x);
    }
}

/// The finished layout holds every mark other than a bar-only filler, on
/// its file and line, exactly as many times as the layout of the labels
/// produces it: grouping loses and invents nothing, and finishing only
/// drops fillers and reorders.
pub proof fn lemma_layout_counts(ls: Seq<Label>, x: Entry)
    requires
        !(x.2.kind is MultiLine),
    ensures
        parts_count(layout(ls), x) == occ(emitted(ls), x),
{
    lemma_group_count(emitted(ls), x);
    lemma_finish_parts_count(group(emitted(ls)), x);
}

} // verus!

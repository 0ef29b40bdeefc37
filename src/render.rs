use crate::diagnostic::Severity;
use crate::file::{lemma_line_begin_bounds, line_text, FileId, FileInterner};
use crate::snippet::{
    is_max_depth, parts_view, Annotation, AnnotationKind, Line, LineView, PartView,
    Snippet, SnippetPart,
};
use vstd::prelude::*;
use vstd::utf8::encode_utf8;

verus! {

/// How a run of text is drawn: plain, in the gutter's colour, in the
/// headline's colour, or in the colour of a severity.
#[derive(Debug, Clone, Copy, PartialEq, Eq, Structural)]
pub enum Style {
    Plain,
    Gutter,
    Title,
    Level(Severity),
}

/// One cell of the connector column left of the source text.
#[derive(Debug, Clone, Copy, PartialEq, Eq, Structural)]
pub enum Glyph {
    Blank,
    Open,
    Bar,
    Top,
    Across,
    Bottom,
}

/// A piece of output: UTF-8 bytes drawn in one style.
#[derive(Debug)]
pub struct Run {
    pub style: Style,
    pub text: Vec<u8>,
}

impl View for Run {
    type V = (Style, Seq<u8>);

    open spec fn view(&self) -> (Style, Seq<u8>) {
        (self.style, self.text@)
    }
}

pub type Cell = (Glyph, Style);

pub open spec fn runs_view(rs: Seq<Run>) -> Seq<(Style, Seq<u8>)> {
    rs.map_values(|r: Run| r@)
}

/// The UTF-8 bytes of a glyph: ' ', '╭', '│', '┌', '─', '└'.
pub open spec fn glyph_bytes(g: Glyph) -> Seq<u8> {
    match g {
        Glyph::Blank => seq![32u8],
        Glyph::Open => seq![0xe2u8, 0x95, 0xad],
        Glyph::Bar => seq![0xe2u8, 0x94, 0x82],
        Glyph::Top => seq![0xe2u8, 0x94, 0x8c],
        Glyph::Across => seq![0xe2u8, 0x94, 0x80],
        Glyph::Bottom => seq![0xe2u8, 0x94, 0x94],
    }
}

/// `s` repeated `n` times.
pub open spec fn repeat(s: Seq<u8>, n: nat) -> Seq<u8>
    decreases n,
{
    if n == 0 {
        Seq::empty()
    } else {
        repeat(s, (n - 1) as nat) + s
    }
}

pub open spec fn spaces(n: nat) -> Seq<u8> {
    repeat(seq![32u8], n)
}

/// The decimal digits of `n`, in ASCII, without leading zeros.
pub open spec fn dec(n: nat) -> Seq<u8>
    decreases n,
{
    if n < 10 {
        seq![(48 + n) as u8]
    } else {
        dec(n / 10).push((48 + n % 10) as u8)
    }
}

/// A diagnostic code as printed: four digits at least, zero-padded, in
/// brackets.
pub open spec fn code_text(code: u16) -> Seq<u8> {
    let d = dec(code as nat);
    seq![91u8] + repeat(seq![48u8], (if d.len() < 4 {
        4 - d.len()
    } else {
        0
    }) as nat) + d + seq![93u8]
}

pub open spec fn label_bytes(l: Option<String>) -> Seq<u8> {
    match l {
        Some(s) => encode_utf8(s@),
        None => Seq::empty(),
    }
}

/// What follows the lead of an annotation row: the markers under its
/// columns, a space, and its label.
pub open spec fn marks(a: Annotation) -> Seq<u8> {
    repeat(seq![a.severity.spec_marker()], (a.end - a.start) as nat) + seq![32u8] + label_bytes(
        a.label,
    )
}

/// The runs that draw a row of connector cells.
pub open spec fn cell_runs(cs: Seq<Cell>) -> Seq<(Style, Seq<u8>)> {
    Seq::new(cs.len(), |i: int| (cs[i].1, glyph_bytes(cs[i].0)))
}

pub open spec fn nest_depth(k: AnnotationKind) -> int {
    match k {
        AnnotationKind::Single => 0,
        AnnotationKind::MultiStart(d) => d as int,
        AnnotationKind::MultiLine(d) => d as int,
        AnnotationKind::MultiEnd(d) => d as int,
    }
}

/// The connector cells under which a line's source text is printed: every
/// open bracket of the line shows its bar, and a bracket opening at column 0
/// shows its rounded top.
pub open spec fn start_cells(anns: Seq<Annotation>, md: nat) -> Seq<Cell>
    decreases anns.len(),
{
    if anns.len() == 0 {
        Seq::new(md, |i: int| (Glyph::Blank, Style::Plain))
    } else {
        let c = start_cells(anns.drop_last(), md);
        let a = anns.last();
        let x = nest_depth(a.kind) - 1;
        match a.kind {
            AnnotationKind::Single => c,
            AnnotationKind::MultiStart(_) => if a.start == 0 {
                c.update(x, (Glyph::Open, Style::Level(a.severity)))
            } else {
                c
            },
            _ => c.update(x, (Glyph::Bar, Style::Level(a.severity))),
        }
    }
}

/// The cells right of depth `x` that are blank are crossed by a horizontal
/// rule in the colour of `sev`.
pub open spec fn across(cs: Seq<Cell>, x: int, sev: Severity) -> Seq<Cell> {
    Seq::new(
        cs.len(),
        |i: int|
            if i >= x && cs[i].0 == Glyph::Blank {
                (Glyph::Across, Style::Level(sev))
            } else {
                cs[i]
            },
    )
}

pub open spec fn gutter_run(m: nat) -> (Style, Seq<u8>) {
    (Style::Gutter, spaces(m) + seq![32u8, 124, 32])
}

pub open spec fn newline_run() -> (Style, Seq<u8>) {
    (Style::Plain, seq![10u8])
}

/// The rows drawn for one annotation given the connector cells before it,
/// and the cells after it.
pub open spec fn ann_row(a: Annotation, cs: Seq<Cell>, m: nat) -> (Seq<(Style, Seq<u8>)>, Seq<Cell>) {
    let lvl = Style::Level(a.severity);
    let x = nest_depth(a.kind) - 1;
    let rule = glyph_bytes(Glyph::Across);
    match a.kind {
        AnnotationKind::Single => (
            seq![gutter_run(m)] + cell_runs(cs) + (if cs.len() > 0 {
                seq![(lvl, seq![32u8])]
            } else {
                Seq::empty()
            }) + seq![(lvl, spaces(a.start as nat) + marks(a)), newline_run()],
            cs,
        ),
        AnnotationKind::MultiStart(_) => if a.start == 0 {
            (Seq::empty(), cs)
        } else {
            (
                seq![gutter_run(m)] + cell_runs(across(cs.update(x, (Glyph::Top, lvl)), x + 1, a.severity))
                    + seq![(lvl, rule + repeat(rule, a.start as nat) + marks(a)), newline_run()],
                cs.update(x, (Glyph::Bar, lvl)),
            )
        },
        AnnotationKind::MultiLine(_) => (Seq::empty(), cs),
        AnnotationKind::MultiEnd(_) => (
            seq![gutter_run(m)] + cell_runs(across(cs.update(x, (Glyph::Bottom, cs[x].1)), x + 1, a.severity))
                + seq![(lvl, rule + repeat(rule, a.start as nat) + marks(a)), newline_run()],
            cs.update(x, (Glyph::Blank, Style::Plain)),
        ),
    }
}

/// The rows of a line's annotations, drawn in order, and the cells after them.
pub open spec fn ann_rows(anns: Seq<Annotation>, cs: Seq<Cell>, m: nat) -> (Seq<(Style, Seq<u8>)>, Seq<Cell>)
    decreases anns.len(),
{
    if anns.len() == 0 {
        (Seq::empty(), cs)
    } else {
        let (r0, c0) = ann_rows(anns.drop_last(), cs, m);
        let (r1, c1) = ann_row(anns.last(), c0, m);
        (r0 + r1, c1)
    }
}

/// Everything drawn for one line of a part whose gutter is `m` wide and
/// whose brackets nest `md` deep, in a file with text `t`; `dots` when the
/// next shown line does not follow directly.
pub open spec fn line_runs(l: LineView, t: Seq<u8>, m: nat, md: nat, dots: bool) -> Seq<(Style, Seq<u8>)> {
    let num = dec((l.idx + 1) as nat);
    let cs = start_cells(l.annotations, md);
    let (rows, after) = ann_rows(l.annotations, cs, m);
    seq![(Style::Gutter, spaces((m - num.len()) as nat) + num + seq![32u8, 124, 32])] + cell_runs(cs)
        + (if md > 0 {
        seq![(Style::Plain, seq![32u8])]
    } else {
        Seq::empty()
    }) + seq![(Style::Plain, line_text(t, l.idx as nat) + seq![10u8])] + rows + (if dots {
        seq![(Style::Gutter, seq![46u8, 46, 46]), (Style::Plain, spaces(m))] + cell_runs(after)
            + seq![newline_run()]
    } else {
        Seq::empty()
    })
}

/// A line can be drawn with `md` connector cells: bracket pieces have a
/// depth in 1..=md and marks do not end before they start.
pub open spec fn line_drawable(l: LineView, md: nat) -> bool {
    &&& l.idx < usize::MAX
    &&& forall|i: int|
        0 <= i < l.annotations.len() ==> {
            let a = #[trigger] l.annotations[i];
            &&& a.start <= a.end
            &&& !(a.kind is Single) ==> 1 <= nest_depth(a.kind) <= md
        }
}

pub proof fn lemma_dec_len_mono(a: nat, b: nat)
    requires
        a <= b,
    ensures
        1 <= dec(a).len() <= dec(b).len(),
    decreases b,
{
    if a >= 10 {
        lemma_dec_len_mono(a / 10, b / 10);
    } else if b >= 10 {
        lemma_dec_len_mono(0, b / 10);
    }
}

pub fn push_bytes(out: &mut Vec<u8>, s: &[u8])
    ensures
        final(out)@ == old(out)@ + s@,
{
    let mut i: usize = 0;
    while i < s.len()
        invariant
            i <= s@.len(),
            out@ == old(out)@ + s@.take(i as int),
        decreases s@.len() - i,
    {
        out.push(s[i]);
        i = i + 1;
        assert(out@ =~= old(out)@ + s@.take(i as int));
    }
    assert(s@.take(i as int) =~= s@);
}

pub fn push_repeat(out: &mut Vec<u8>, s: &[u8], n: usize)
    ensures
        final(out)@ == old(out)@ + repeat(s@, n as nat),
{
    let mut k: usize = 0;
    assert(old(out)@ + repeat(s@, 0) =~= old(out)@);
    while k < n
        invariant
            k <= n,
            out@ == old(out)@ + repeat(s@, k as nat),
        decreases n - k,
    {
        push_bytes(out, s);
        k = k + 1;
        assert(out@ =~= old(out)@ + repeat(s@, k as nat));
    }
}

pub fn glyph_vec(g: Glyph) -> (r: Vec<u8>)
    ensures
        r@ == glyph_bytes(g),
{
    let r = match g {
        Glyph::Blank => vec![32u8],
        Glyph::Open => vec![0xe2u8, 0x95, 0xad],
        Glyph::Bar => vec![0xe2u8, 0x94, 0x82],
        Glyph::Top => vec![0xe2u8, 0x94, 0x8c],
        Glyph::Across => vec![0xe2u8, 0x94, 0x80],
        Glyph::Bottom => vec![0xe2u8, 0x94, 0x94],
    };
    assert(r@ =~= glyph_bytes(g));
    r
}

/// The decimal digits of `n`.
pub fn dec_vec(n: usize) -> (r: Vec<u8>)
    ensures
        r@ == dec(n as nat),
    decreases n,
{
    if n < 10 {
        let r = vec![(48 + n) as u8];
        assert(r@ =~= dec(n as nat));
        r
    } else {
        let mut r = dec_vec(n / 10);
        r.push((48 + n % 10) as u8);
        r
    }
}

pub fn label_vec(l: &Option<String>) -> (r: Vec<u8>)
    ensures
        r@ == label_bytes(*l),
{
    let mut r: Vec<u8> = Vec::new();
    match l {
        Some(s) => {
            push_bytes(&mut r, s.as_str().as_bytes());
            assert(r@ =~= encode_utf8(s@));
        },
        None => {
            assert(r@ =~= Seq::<u8>::empty());
        },
    }
    r
}

pub fn push_range(out: &mut Vec<u8>, src: &[u8], from: usize, to: usize)
    requires
        from <= to <= src@.len(),
    ensures
        final(out)@ == old(out)@ + src@.subrange(from as int, to as int),
{
    let mut i = from;
    while i < to
        invariant
            from <= i <= to <= src@.len(),
            out@ == old(out)@ + src@.subrange(from as int, i as int),
        decreases to - i,
    {
        out.push(src[i]);
        i = i + 1;
        assert(out@ =~= old(out)@ + src@.subrange(from as int, i as int));
    }
}

fn newline() -> (r: Vec<u8>)
    ensures
        r@ == newline_run().1,
{
    let r = vec![10u8];
    assert(r@ =~= seq![10u8]);
    r
}

fn spaces_vec(n: usize) -> (r: Vec<u8>)
    ensures
        r@ == spaces(n as nat),
{
    let mut r: Vec<u8> = Vec::new();
    let sp = vec![32u8];
    assert(sp@ =~= seq![32u8]);
    push_repeat(&mut r, sp.as_slice(), n);
    assert(r@ =~= spaces(n as nat));
    r
}

fn push_run(out: &mut Vec<Run>, style: Style, text: Vec<u8>)
    ensures
        runs_view(final(out)@) == runs_view(old(out)@).push((style, text@)),
{
    let ghost before = out@;
    out.push(Run { style, text });
    assert(runs_view(out@) =~= runs_view(before).push((style, text@)));
}

fn gutter(m: usize) -> (r: Vec<u8>)
    ensures
        r@ == gutter_run(m as nat).1,
{
    let mut g = spaces_vec(m);
    let bar = vec![32u8, 124, 32];
    assert(bar@ =~= seq![32u8, 124, 32]);
    push_bytes(&mut g, bar.as_slice());
    assert(g@ =~= spaces(m as nat) + seq![32u8, 124, 32]);
    g
}

fn push_cells(out: &mut Vec<Run>, cs: &Vec<Cell>)
    ensures
        runs_view(final(out)@) == runs_view(old(out)@) + cell_runs(cs@),
{
    let mut i: usize = 0;
    while i < cs.len()
        invariant
            i <= cs@.len(),
            runs_view(out@) =~= runs_view(old(out)@) + cell_runs(cs@).take(i as int),
        decreases cs@.len() - i,
    {
        let (g, st) = cs[i];
        push_run(out, st, glyph_vec(g));
        i = i + 1;
        assert(cell_runs(cs@).take(i as int) =~= cell_runs(cs@).take(i - 1).push(
            (st, glyph_bytes(g)),
        ));
    }
    assert(cell_runs(cs@).take(i as int) =~= cell_runs(cs@));
}

fn marks_vec(a: &Annotation) -> (r: Vec<u8>)
    requires
        a.start <= a.end,
    ensures
        r@ == marks(*a),
{
    let mut v: Vec<u8> = Vec::new();
    let mk = vec![a.severity.marker()];
    assert(mk@ =~= seq![a.severity.spec_marker()]);
    push_repeat(&mut v, mk.as_slice(), a.end - a.start);
    v.push(32u8);
    let l = label_vec(&a.label);
    push_bytes(&mut v, l.as_slice());
    assert(v@ =~= marks(*a));
    v
}

fn across_exec(cs: &Vec<Cell>, x: usize, sev: Severity) -> (r: Vec<Cell>)
    ensures
        r@ == across(cs@, x as int, sev),
{
    let mut r: Vec<Cell> = Vec::new();
    let mut i: usize = 0;
    while i < cs.len()
        invariant
            i <= cs@.len(),
            r@ =~= across(cs@, x as int, sev).take(i as int),
        decreases cs@.len() - i,
    {
        let c = cs[i];
        if i >= x && c.0 == Glyph::Blank {
            r.push((Glyph::Across, Style::Level(sev)));
        } else {
            r.push(c);
        }
        i = i + 1;
    }
    r
}

fn start_cells_exec(anns: &Vec<Annotation>, md: usize) -> (r: Vec<Cell>)
    requires
        forall|i: int|
            0 <= i < anns@.len() ==> {
                let a = #[trigger] anns@[i];
                !(a.kind is Single) ==> 1 <= nest_depth(a.kind) <= md
            },
    ensures
        r@ == start_cells(anns@, md as nat),
        r@.len() == md,
{
    let mut c: Vec<Cell> = Vec::new();
    let mut k: usize = 0;
    while k < md
        invariant
            k <= md,
            c@ =~= Seq::new(k as nat, |i: int| (Glyph::Blank, Style::Plain)),
        decreases md - k,
    {
        c.push((Glyph::Blank, Style::Plain));
        k = k + 1;
    }
    let mut i: usize = 0;
    assert(anns@.take(0) =~= Seq::<Annotation>::empty());
    while i < anns.len()
        invariant
            i <= anns@.len(),
            c@ == start_cells(anns@.take(i as int), md as nat),
            c@.len() == md,
            forall|j: int|
                0 <= j < anns@.len() ==> {
                    let a = #[trigger] anns@[j];
                    !(a.kind is Single) ==> 1 <= nest_depth(a.kind) <= md
                },
        decreases anns@.len() - i,
    {
        let a = &anns[i];
        proof {
            assert(anns@.take(i + 1).drop_last() =~= anns@.take(i as int));
            assert(anns@.take(i + 1).last() == anns@[i as int]);
            assert(!(a.kind is Single) ==> 1 <= nest_depth(a.kind) <= md);
        }
        match a.kind {
            AnnotationKind::Single => {},
            AnnotationKind::MultiStart(x) => {
                if a.start == 0 {
                    c[x - 1] = (Glyph::Open, Style::Level(a.severity));
                }
            },
            AnnotationKind::MultiLine(x) => {
                c[x - 1] = (Glyph::Bar, Style::Level(a.severity));
            },
            AnnotationKind::MultiEnd(x) => {
                c[x - 1] = (Glyph::Bar, Style::Level(a.severity));
            },
        }
        i = i + 1;
    }
    assert(anns@.take(i as int) =~= anns@);
    c
}

/// Draws the rows of one annotation and updates the connector cells.
fn draw_annotation(a: &Annotation, cs: &mut Vec<Cell>, out: &mut Vec<Run>, m: usize)
    requires
        a.start <= a.end,
        !(a.kind is Single) ==> 1 <= nest_depth(a.kind) <= old(cs)@.len(),
    ensures
        runs_view(final(out)@) == runs_view(old(out)@) + ann_row(*a, old(cs)@, m as nat).0,
        final(cs)@ == ann_row(*a, old(cs)@, m as nat).1,
        final(cs)@.len() == old(cs)@.len(),
{
    let lvl = Style::Level(a.severity);
    let ghost row = ann_row(*a, cs@, m as nat);
    let ghost o = runs_view(out@);
    match a.kind {
        AnnotationKind::Single => {
            push_run(out, Style::Gutter, gutter(m));
            push_cells(out, cs);
            let ghost o1 = runs_view(out@);
            if cs.len() > 0 {
                let sep = vec![32u8];
                assert(sep@ =~= seq![32u8]);
                push_run(out, lvl, sep);
            }
            assert(runs_view(out@) =~= o1 + (if cs@.len() > 0 {
                seq![(lvl, seq![32u8])]
            } else {
                Seq::empty()
            }));
            let mut body = spaces_vec(a.start);
            let mk = marks_vec(a);
            push_bytes(&mut body, mk.as_slice());
            assert(body@ == spaces(a.start as nat) + marks(*a));
            push_run(out, lvl, body);
            push_run(out, Style::Plain, newline());
            proof {
                assert(runs_view(out@) =~= o + row.0);
            }
        },
        AnnotationKind::MultiStart(x) => {
            if a.start != 0 {
                push_run(out, Style::Gutter, gutter(m));
                let ghost c0 = cs@;
                cs[x - 1] = (Glyph::Top, lvl);
                let shown = across_exec(cs, x, a.severity);
                push_cells(out, &shown);
                let mut body = glyph_vec(Glyph::Across);
                let rule = glyph_vec(Glyph::Across);
                push_repeat(&mut body, rule.as_slice(), a.start);
                let mk = marks_vec(a);
                push_bytes(&mut body, mk.as_slice());
                assert(shown@ == across(c0.update(x - 1, (Glyph::Top, lvl)), x as int, a.severity));
                assert(body@ == glyph_bytes(Glyph::Across) + repeat(glyph_bytes(Glyph::Across), a.start as nat) + marks(*a));
                assert(nest_depth(a.kind) - 1 == x - 1);
                push_run(out, lvl, body);
                push_run(out, Style::Plain, newline());
                cs[x - 1] = (Glyph::Bar, lvl);
                proof {
                    assert(runs_view(out@) =~= o + row.0);
                    assert(cs@ =~= row.1);
                }
            }
        },
        AnnotationKind::MultiLine(_) => {},
        AnnotationKind::MultiEnd(x) => {
            push_run(out, Style::Gutter, gutter(m));
            let ghost c0 = cs@;
            let keep = cs[x - 1].1;
            cs[x - 1] = (Glyph::Bottom, keep);
            let shown = across_exec(cs, x, a.severity);
            push_cells(out, &shown);
            let mut body = glyph_vec(Glyph::Across);
            let rule = glyph_vec(Glyph::Across);
            push_repeat(&mut body, rule.as_slice(), a.start);
            let mk = marks_vec(a);
            push_bytes(&mut body, mk.as_slice());
            assert(shown@ == across(c0.update(x - 1, (Glyph::Bottom, c0[x - 1].1)), x as int, a.severity));
            assert(body@ == glyph_bytes(Glyph::Across) + repeat(glyph_bytes(Glyph::Across), a.start as nat) + marks(*a));
            assert(nest_depth(a.kind) - 1 == x - 1);
            push_run(out, lvl, body);
            push_run(out, Style::Plain, newline());
            cs[x - 1] = (Glyph::Blank, Style::Plain);
            proof {
                assert(runs_view(out@) =~= o + row.0);
                assert(cs@ =~= row.1);
            }
        },
    }
}

impl Line {
    /// Draws this line of `file`: the gutter with its 1-based number, the
    /// connector cells, the source text, one row per annotation that draws
    /// one, and, with `dots`, an elision row after it.
    pub fn write(&self, files: &FileInterner, file: FileId, margin: usize, max_depth: usize, dots: bool) -> (r: Vec<Run>)
        requires
            files.contains(file),
            line_drawable(self@, max_depth as nat),
            dec((self.idx + 1) as nat).len() <= margin,
        ensures
            runs_view(r@) == line_runs(self@, files.source_bytes(file), margin as nat, max_depth as nat, dots),
    {
        let ghost lv = self@;
        let ghost m = margin as nat;
        let ghost md = max_depth as nat;
        let mut out: Vec<Run> = Vec::new();
        let num = dec_vec(self.idx + 1);
        let mut g = spaces_vec(margin - num.len());
        push_bytes(&mut g, num.as_slice());
        let bar = vec![32u8, 124, 32];
        assert(bar@ =~= seq![32u8, 124, 32]);
        push_bytes(&mut g, bar.as_slice());
        let ghost num_s = dec((lv.idx + 1) as nat);
        assert(g@ =~= spaces((m - num_s.len()) as nat) + num_s + seq![32u8, 124, 32]);
        push_run(&mut out, Style::Gutter, g);
        let ghost o1 = runs_view(out@);
        let cells = start_cells_exec(&self.annotations, max_depth);
        push_cells(&mut out, &cells);
        if max_depth > 0 {
            let sep = vec![32u8];
            assert(sep@ =~= seq![32u8]);
            push_run(&mut out, Style::Plain, sep);
        }
        let (s, e) = files.line_bounds(file, self.idx);
        let src = files.get(file).source.as_str().as_bytes();
        proof {
            lemma_line_begin_bounds(files.source_bytes(file), self.idx as nat);
        }
        let ghost tb = files.source_bytes(file);
        assert(src@ == tb);
        let ghost o2 = runs_view(out@);
        assert(o2 =~= o1 + cell_runs(cells@) + (if md > 0 {
            seq![(Style::Plain, seq![32u8])]
        } else {
            Seq::empty()
        }));
        let mut text: Vec<u8> = Vec::new();
        push_range(&mut text, src, s, e);
        text.push(10u8);
        assert(text@ =~= line_text(tb, lv.idx as nat) + seq![10u8]);
        push_run(&mut out, Style::Plain, text);
        let ghost head = runs_view(out@);
        let ghost cs0 = cells@;
        let mut cs = cells;
        let mut i: usize = 0;
        assert(lv.annotations.take(0) =~= Seq::<Annotation>::empty());
        assert(head + ann_rows(lv.annotations.take(0), cs0, m).0 =~= head);
        while i < self.annotations.len()
            invariant
                lv == self@,
                line_drawable(lv, md),
                md == max_depth,
                m == margin,
                i <= lv.annotations.len(),
                cs@.len() == md,
                runs_view(out@) == head + ann_rows(lv.annotations.take(i as int), cs0, m).0,
                cs@ == ann_rows(lv.annotations.take(i as int), cs0, m).1,
            decreases lv.annotations.len() - i,
        {
            proof {
                assert(lv.annotations.take(i + 1).drop_last() =~= lv.annotations.take(i as int));
                assert(lv.annotations.take(i + 1).last() == lv.annotations[i as int]);
                let a = lv.annotations[i as int];
                assert(a.start <= a.end);
            }
            draw_annotation(&self.annotations[i], &mut cs, &mut out, margin);
            i = i + 1;
            assert(runs_view(out@) =~= head + ann_rows(lv.annotations.take(i as int), cs0, m).0);
        }
        assert(lv.annotations.take(i as int) =~= lv.annotations);
        let ghost o3 = runs_view(out@);
        if dots {
            let dd = vec![46u8, 46, 46];
            assert(dd@ =~= seq![46u8, 46, 46]);
            push_run(&mut out, Style::Gutter, dd);
            let pad = spaces_vec(margin);
            push_run(&mut out, Style::Plain, pad);
            push_cells(&mut out, &cs);
            push_run(&mut out, Style::Plain, newline());
            assert(pad@ == spaces(m));
            assert(runs_view(out@) =~= o3 + (seq![(Style::Gutter, seq![46u8, 46, 46]), (Style::Plain, spaces(m))] + cell_runs(cs@)
            + seq![newline_run()]));
        } else {
            assert(runs_view(out@) =~= o3 + Seq::empty());
        }
        assert(runs_view(out@) =~= line_runs(lv, files.source_bytes(file), m, md, dots));
        out
    }
}

/// The largest 1-based line number among `ls`, or 1 when there is none.
pub open spec fn max_line_no(ls: Seq<LineView>) -> nat
    decreases ls.len(),
{
    if ls.len() == 0 {
        1
    } else {
        let r = max_line_no(ls.drop_last());
        let v = ls.last().idx + 1;
        if v > r {
            v as nat
        } else {
            r
        }
    }
}

/// The deepest bracket nesting of a part (0 without brackets).
pub open spec fn part_max_depth(p: PartView) -> usize {
    choose|m: usize| is_max_depth(p, m)
}

/// The line after the `k`-th shown one is not the next line of the file.
pub open spec fn dots_at(ls: Seq<LineView>, k: int) -> bool {
    k + 1 < ls.len() && ls[k + 1].idx != ls[k].idx + 1
}

/// The runs of the first `k` lines of a part.
pub open spec fn lines_runs(ls: Seq<LineView>, k: nat, t: Seq<u8>, m: nat, md: nat) -> Seq<
    (Style, Seq<u8>),
>
    decreases k,
{
    if k == 0 {
        Seq::empty()
    } else {
        lines_runs(ls, (k - 1) as nat, t, m, md) + line_runs(
            ls[k - 1],
            t,
            m,
            md,
            dots_at(ls, k - 1),
        )
    }
}

/// Everything drawn for one part, given the registered files `fs`: a
/// locator row with the file's name, then its lines, with a gutter as wide
/// as the largest line number.
pub open spec fn part_runs(p: PartView, fs: Seq<(Seq<char>, Seq<char>)>) -> Seq<(Style, Seq<u8>)> {
    let m = dec(max_line_no(p.lines)).len();
    let entry = fs[p.file.0 as int];
    seq![
        (Style::Gutter, spaces(m) + seq![45u8, 45, 62]),
        (Style::Plain, seq![32u8] + encode_utf8(entry.0) + seq![10u8]),
    ] + lines_runs(p.lines, p.lines.len(), encode_utf8(entry.1), m, part_max_depth(p) as nat)
}

pub open spec fn parts_runs(ps: Seq<PartView>, k: nat, fs: Seq<(Seq<char>, Seq<char>)>) -> Seq<
    (Style, Seq<u8>),
>
    decreases k,
{
    if k == 0 {
        Seq::empty()
    } else {
        parts_runs(ps, (k - 1) as nat, fs) + part_runs(ps[k - 1], fs)
    }
}

pub open spec fn code_bytes(code: Option<u16>) -> Seq<u8> {
    match code {
        Some(c) => code_text(c),
        None => Seq::empty(),
    }
}

/// The headline: severity name and code, then the message.
pub open spec fn header_runs(sev: Severity, code: Option<u16>, message: Seq<char>) -> Seq<
    (Style, Seq<u8>),
> {
    seq![
        (Style::Level(sev), sev.spec_name() + code_bytes(code)),
        (Style::Plain, seq![58u8, 32]),
        (Style::Title, encode_utf8(message) + seq![10u8]),
    ]
}

/// Everything drawn for a snippet.
pub open spec fn snippet_runs(s: &Snippet, fs: Seq<(Seq<char>, Seq<char>)>) -> Seq<(Style, Seq<u8>)> {
    let ps = parts_view(s.parts@);
    header_runs(s.severity, s.code, s.message@) + parts_runs(ps, ps.len(), fs)
}

/// A part can be drawn: its file is registered, its line numbers fit, its
/// marks do not end before they start and its bracket depths start at 1.
pub open spec fn part_drawable(p: PartView, files: &FileInterner) -> bool {
    &&& files.contains(p.file)
    &&& forall|k: int|
        0 <= k < p.lines.len() ==> {
            let l = #[trigger] p.lines[k];
            &&& l.idx < usize::MAX
            &&& forall|i: int|
                0 <= i < l.annotations.len() ==> {
                    let a = #[trigger] l.annotations[i];
                    &&& a.start <= a.end
                    &&& !(a.kind is Single) ==> 1 <= nest_depth(a.kind)
                }
        }
}

pub open spec fn snippet_drawable(s: &Snippet, files: &FileInterner) -> bool {
    forall|k: int| 0 <= k < s.parts@.len() ==> part_drawable(#[trigger] s.parts@[k]@, files)
}

proof fn lemma_max_depth_unique(p: PartView, a: usize, b: usize)
    requires
        is_max_depth(p, a),
        is_max_depth(p, b),
    ensures
        a == b,
{
    if a != 0 {
        let (i, j) = choose|i: int, j: int|
            0 <= i < p.lines.len() && 0 <= j < p.lines[i].annotations.len()
                && (#[trigger] p.lines[i].annotations[j]).kind.depth() == Some(a);
        assert(a <= b);
    }
    if b != 0 {
        let (i, j) = choose|i: int, j: int|
            0 <= i < p.lines.len() && 0 <= j < p.lines[i].annotations.len()
                && (#[trigger] p.lines[i].annotations[j]).kind.depth() == Some(b);
        assert(b <= a);
    }
}

fn code_vec(c: u16) -> (r: Vec<u8>)
    ensures
        r@ == code_text(c),
{
    let d = dec_vec(c as usize);
    let mut v = vec![91u8];
    assert(v@ =~= seq![91u8]);
    let zero = vec![48u8];
    assert(zero@ =~= seq![48u8]);
    let pad = if d.len() < 4 {
        4 - d.len()
    } else {
        0
    };
    push_repeat(&mut v, zero.as_slice(), pad);
    push_bytes(&mut v, d.as_slice());
    v.push(93u8);
    assert(v@ =~= code_text(c));
    v
}

fn write_part(part: &SnippetPart, files: &FileInterner, out: &mut Vec<Run>)
    requires
        part_drawable(part@, files),
    ensures
        runs_view(final(out)@) == runs_view(old(out)@) + part_runs(part@, files@),
{
    let ghost pv = part@;
    let ghost ls = pv.lines;
    let mut mx: usize = 1;
    let mut i: usize = 0;
    assert(ls.take(0) =~= Seq::<LineView>::empty());
    while i < part.lines.len()
        invariant
            pv == part@,
            ls == pv.lines,
            part_drawable(pv, files),
            i <= ls.len(),
            mx == max_line_no(ls.take(i as int)),
            forall|k: int| 0 <= k < i ==> (#[trigger] ls[k]).idx + 1 <= mx,
        decreases ls.len() - i,
    {
        proof {
            assert(ls.take(i + 1).drop_last() =~= ls.take(i as int));
            assert(ls[i as int] == part.lines@[i as int]@);
            assert(ls[i as int].idx < usize::MAX);
        }
        if part.lines[i].idx + 1 > mx {
            mx = part.lines[i].idx + 1;
        }
        i = i + 1;
    }
    assert(ls.take(i as int) =~= ls);
    let margin = dec_vec(mx).len();
    let md = part.max_depth();
    proof {
        lemma_max_depth_unique(pv, md, part_max_depth(pv));
    }
    let ghost o = runs_view(out@);
    let mut g = spaces_vec(margin);
    let arrow = vec![45u8, 45, 62];
    assert(arrow@ =~= seq![45u8, 45, 62]);
    push_bytes(&mut g, arrow.as_slice());
    push_run(out, Style::Gutter, g);
    let mut name = vec![32u8];
    assert(name@ =~= seq![32u8]);
    let info = files.get(part.file);
    push_bytes(&mut name, info.name.as_str().as_bytes());
    name.push(10u8);
    assert(info.name@ == files@[part.file.0 as int].0);
    assert(name@ =~= seq![32u8] + encode_utf8(files@[part.file.0 as int].0) + seq![10u8]);
    assert(g@ =~= spaces(margin as nat) + seq![45u8, 45, 62]);
    push_run(out, Style::Plain, name);
    let ghost t = files.source_bytes(part.file);
    let ghost head = runs_view(out@);
    assert(head =~= o + seq![
        (Style::Gutter, spaces(margin as nat) + seq![45u8, 45, 62]),
        (Style::Plain, seq![32u8] + encode_utf8(files@[part.file.0 as int].0) + seq![10u8]),
    ]);
    let mut k: usize = 0;
    assert(head + lines_runs(ls, 0, t, margin as nat, md as nat) =~= head);
    while k < part.lines.len()
        invariant
            pv == part@,
            ls == pv.lines,
            part_drawable(pv, files),
            is_max_depth(pv, md),
            k <= ls.len(),
            margin == dec(mx as nat).len(),
            forall|j: int| 0 <= j < ls.len() ==> (#[trigger] ls[j]).idx + 1 <= mx,
            t == files.source_bytes(part.file),
            runs_view(out@) == head + lines_runs(ls, k as nat, t, margin as nat, md as nat),
        decreases ls.len() - k,
    {
        let dots = k + 1 < part.lines.len() && part.lines[k + 1].idx != part.lines[k].idx + 1;
        proof {
            let l = ls[k as int];
            assert(l == part.lines@[k as int]@);
            if k + 1 < ls.len() {
                assert(ls[k + 1] == part.lines@[k + 1]@);
            }
            assert(dots == dots_at(ls, k as int));
            lemma_dec_len_mono((l.idx + 1) as nat, mx as nat);
            assert forall|i: int| 0 <= i < l.annotations.len() implies {
                let a = #[trigger] l.annotations[i];
                &&& a.start <= a.end
                &&& !(a.kind is Single) ==> 1 <= nest_depth(a.kind) <= md
            } by {
                let a = l.annotations[i];
                assert(pv.lines[k as int].annotations[i] == a);
                if !(a.kind is Single) {
                    assert(a.kind.depth() is Some);
                }
            }
        }
        let mut rs = part.lines[k].write(files, part.file, margin, md, dots);
        let ghost before = out@;
        let ghost added = rs@;
        out.append(&mut rs);
        assert(runs_view(out@) =~= runs_view(before) + runs_view(added));
        k = k + 1;
    }
    assert(runs_view(out@) =~= o + part_runs(pv, files@));
}

impl Snippet {
    /// Draws the snippet, reading file names and source text from `files`.
    pub fn write(&self, files: &FileInterner) -> (r: Vec<Run>)
        requires
            snippet_drawable(self, files),
        ensures
            runs_view(r@) == snippet_runs(self, files@),
    {
        let mut out: Vec<Run> = Vec::new();
        let mut title = self.severity.name();
        match self.code {
            Some(c) => {
                let cv = code_vec(c);
                push_bytes(&mut title, cv.as_slice());
            },
            None => {},
        }
        assert(title@ =~= self.severity.spec_name() + code_bytes(self.code));
        push_run(&mut out, Style::Level(self.severity), title);
        let colon = vec![58u8, 32];
        assert(colon@ =~= seq![58u8, 32]);
        push_run(&mut out, Style::Plain, colon);
        let mut msg: Vec<u8> = Vec::new();
        push_bytes(&mut msg, self.message.as_str().as_bytes());
        msg.push(10u8);
        assert(msg@ =~= encode_utf8(self.message@) + seq![10u8]);
        push_run(&mut out, Style::Title, msg);
        let ghost head = runs_view(out@);
        let ghost ps = parts_view(self.parts@);
        assert(head =~= header_runs(self.severity, self.code, self.message@));
        assert(head + parts_runs(ps, 0, files@) =~= head);
        let mut k: usize = 0;
        while k < self.parts.len()
            invariant
                ps == parts_view(self.parts@),
                snippet_drawable(self, files),
                k <= ps.len(),
                runs_view(out@) == head + parts_runs(ps, k as nat, files@),
            decreases ps.len() - k,
        {
            assert(part_drawable(self.parts@[k as int]@, files));
            write_part(&self.parts[k], files, &mut out);
            assert(ps[k as int] == self.parts@[k as int]@);
            k = k + 1;
            assert(runs_view(out@) =~= head + parts_runs(ps, k as nat, files@));
        }
        out
    }
}

fn part_is_drawable(part: &SnippetPart, files: &FileInterner) -> (r: bool)
    ensures
        r == part_drawable(part@, files),
{
    if part.file.0 >= files.len() {
        return false;
    }
    let ghost pv = part@;
    let mut k: usize = 0;
    while k < part.lines.len()
        invariant
            pv == part@,
            files.contains(part.file),
            k <= pv.lines.len(),
            forall|j: int|
                0 <= j < k ==> {
                    let l = #[trigger] pv.lines[j];
                    &&& l.idx < usize::MAX
                    &&& forall|i: int|
                        0 <= i < l.annotations.len() ==> {
                            let a = #[trigger] l.annotations[i];
                            &&& a.start <= a.end
                            &&& !(a.kind is Single) ==> 1 <= nest_depth(a.kind)
                        }
                },
        decreases pv.lines.len() - k,
    {
        let line = &part.lines[k];
        assert(pv.lines[k as int] == line@);
        if line.idx == usize::MAX {
            return false;
        }
        let mut i: usize = 0;
        while i < line.annotations.len()
            invariant
                pv == part@,
                k < pv.lines.len(),
                pv.lines[k as int] == line@,
                i <= line.annotations@.len(),
                forall|j: int|
                    0 <= j < i ==> {
                        let a = #[trigger] line.annotations@[j];
                        &&& a.start <= a.end
                        &&& !(a.kind is Single) ==> 1 <= nest_depth(a.kind)
                    },
            decreases line.annotations@.len() - i,
        {
            let a = &line.annotations[i];
            assert(line@.annotations == pv.lines[k as int].annotations);
            let bad_depth = match a.kind {
                AnnotationKind::Single => false,
                AnnotationKind::MultiStart(d) => d == 0,
                AnnotationKind::MultiLine(d) => d == 0,
                AnnotationKind::MultiEnd(d) => d == 0,
            };
            if a.start > a.end || bad_depth {
                assert(pv.lines[k as int].annotations[i as int] == *a);
                assert(!(a.start <= a.end && (!(a.kind is Single) ==> 1 <= nest_depth(a.kind))));
                return false;
            }
            i = i + 1;
        }
        k = k + 1;
    }
    true
}

impl Snippet {
    /// Whether `write` can draw this snippet against `files`.
    pub fn is_drawable(&self, files: &FileInterner) -> (r: bool)
        ensures
            r == snippet_drawable(self, files),
    {
        let mut k: usize = 0;
        while k < self.parts.len()
            invariant
                k <= self.parts@.len(),
                forall|j: int| 0 <= j < k ==> part_drawable(#[trigger] self.parts@[j]@, files),
            decreases self.parts@.len() - k,
        {
            if !part_is_drawable(&self.parts[k], files) {
                return false;
            }
            k = k + 1;
        }
        true
    }
}

/// A gap between two shown lines is marked, not filled: the elision flag is
/// set exactly where the next shown line does not directly follow, and a
/// line drawn with it is the same line drawn without it followed by one
/// elision row ("..." in the gutter's style, then its connector cells).
pub proof fn lemma_gap_elided(ls: Seq<LineView>, k: int, t: Seq<u8>, m: nat, md: nat)
    requires
        0 <= k < ls.len(),
    ensures
        dots_at(ls, k) <==> (k + 1 < ls.len() && ls[k + 1].idx != ls[k].idx + 1),
        line_runs(ls[k], t, m, md, true) == line_runs(ls[k], t, m, md, false) + seq![
            (Style::Gutter, seq![46u8, 46, 46]),
            (Style::Plain, spaces(m)),
        ] + cell_runs(ann_rows(ls[k].annotations, start_cells(ls[k].annotations, md), m).1) + seq![
            newline_run(),
        ],
{
    let l = ls[k];
    let cs = start_cells(l.annotations, md);
    let after = ann_rows(l.annotations, cs, m).1;
    let tail = seq![(Style::Gutter, seq![46u8, 46, 46]), (Style::Plain, spaces(m))] + cell_runs(after)
        + seq![newline_run()];
    assert(line_runs(l, t, m, md, false) =~= line_runs(l, t, m, md, false) + Seq::empty());
    assert(line_runs(l, t, m, md, true) =~= line_runs(l, t, m, md, false) + tail);
}

} // verus!

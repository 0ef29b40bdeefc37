use crate::diagnostic::{Diagnostic, Severity};
use crate::span::Span;
use vstd::prelude::*;

verus! {

/// The diagnostics collected so far in a session.
pub struct Reporter {
    diagnostics: Vec<Diagnostic>,
}

/// `d` is the diagnostic that `remove(span, code)` retracts: its first label
/// points at `span` and it carries `code`.
pub open spec fn retracted_by(d: Diagnostic, span: Span, code: u16) -> bool {
    &&& d.labels@.len() > 0
    &&& d.labels@[0].span == Some(span)
    &&& d.code == Some(code)
}

/// The diagnostics of `ds` that `remove(span, code)` keeps, in order.
pub open spec fn kept(ds: Seq<Diagnostic>, span: Span, code: u16) -> Seq<Diagnostic>
    decreases ds.len(),
{
    if ds.len() == 0 {
        ds
    } else if retracted_by(ds.last(), span, code) {
        kept(ds.drop_last(), span, code)
    } else {
        kept(ds.drop_last(), span, code).push(ds.last())
    }
}

/// Inserts `x` after every diagnostic at least as severe.
pub open spec fn insert_by_severity(s: Seq<Diagnostic>, x: Diagnostic) -> Seq<Diagnostic>
    decreases s.len(),
{
    if s.len() == 0 {
        seq![x]
    } else if s[0].severity.spec_rank() > x.severity.spec_rank() {
        seq![x] + s
    } else {
        seq![s[0]] + insert_by_severity(s.drop_first(), x)
    }
}

/// A stable sort from the most severe to the least.
pub open spec fn sort_by_severity(s: Seq<Diagnostic>) -> Seq<Diagnostic>
    decreases s.len(),
{
    if s.len() == 0 {
        s
    } else {
        insert_by_severity(sort_by_severity(s.drop_last()), s.last())
    }
}

impl View for Reporter {
    type V = Seq<Diagnostic>;

    closed spec fn view(&self) -> Seq<Diagnostic> {
        self.diagnostics@
    }
}

fn insert_by_severity_exec(v: &mut Vec<Diagnostic>, x: Diagnostic)
    ensures
        final(v)@ == insert_by_severity(old(v)@, x),
{
    let mut p: usize = 0;
    assert(v@.take(0) + insert_by_severity(v@.skip(0), x) =~= insert_by_severity(v@, x)) by {
        assert(v@.skip(0) =~= v@);
    }
    while p < v.len() && v[p].severity.rank() <= x.severity.rank()
        invariant
            p <= v@.len(),
            v@ == old(v)@,
            insert_by_severity(v@, x) == v@.take(p as int) + insert_by_severity(
                v@.skip(p as int),
                x,
            ),
        decreases v@.len() - p,
    {
        proof {
            let s = v@.skip(p as int);
            assert(s.drop_first() =~= v@.skip(p + 1));
            assert(v@.take(p + 1) =~= v@.take(p as int) + seq![s[0]]);
        }
        p = p + 1;
    }
    proof {
        let s = v@.skip(p as int);
        if p >= v@.len() {
            assert(s.len() == 0);
        }
        assert(v@.take(p as int) + insert_by_severity(s, x) =~= v@.insert(p as int, x));
    }
    v.insert(p, x);
}

impl Reporter {
    pub fn new() -> (r: Reporter)
        ensures
            r@ == Seq::<Diagnostic>::empty(),
    {
        Reporter { diagnostics: Vec::new() }
    }

    /// Stores `diagnostic`. Returns whether it is of the bug tier, after
    /// which everything collected must be reported at once and the process
    /// ended.
    pub fn add(&mut self, diagnostic: Diagnostic) -> (flush: bool)
        ensures
            final(self)@ == old(self)@.push(diagnostic),
            flush == (diagnostic.severity == Severity::Bug),
    {
        let is_bug = diagnostic.severity == Severity::Bug;
        self.diagnostics.push(diagnostic);
        is_bug
    }

    /// Retracts every diagnostic whose first label points at `span` and whose
    /// code is `code`.
    pub fn remove(&mut self, span: Span, code: u16)
        ensures
            final(self)@ == kept(old(self)@, span, code),
    {
        let mut rest: Vec<Diagnostic> = Vec::new();
        std::mem::swap(&mut rest, &mut self.diagnostics);
        let ghost orig = rest@;
        let _ = rest.len();
        let mut out: Vec<Diagnostic> = Vec::new();
        let mut k: usize = 0;
        while rest.len() > 0
            invariant
                k <= orig.len(),
                k + rest@.len() == orig.len(),
                orig.len() <= usize::MAX,
                rest@ == orig.skip(k as int),
                out@ == kept(orig.take(k as int), span, code),
            decreases rest@.len(),
        {
            let d = rest.remove(0);
            proof {
                assert(orig.take(k + 1).drop_last() =~= orig.take(k as int));
                assert(orig.skip(k as int).drop_first() =~= orig.skip(k + 1));
            }
            let hit = d.labels.len() > 0 && d.labels[0].span == Some(span) && d.code == Some(
                code,
            );
            if !hit {
                out.push(d);
            }
            k = k + 1;
        }
        assert(orig.take(k as int) =~= orig);
        self.diagnostics = out;
    }

    /// Whether a diagnostic of error tier or above has been collected.
    pub fn has_errors(&self) -> (r: bool)
        ensures
            r == exists|i: int| 0 <= i < self@.len() && (#[trigger] self@[i]).severity.spec_is_error(),
    {
        let mut i: usize = 0;
        while i < self.diagnostics.len()
            invariant
                i <= self@.len(),
                forall|j: int| 0 <= j < i ==> !(#[trigger] self@[j]).severity.spec_is_error(),
            decreases self@.len() - i,
        {
            if self.diagnostics[i].severity.is_error() {
                return true;
            }
            i = i + 1;
        }
        false
    }

    /// Puts the collected diagnostics in reporting order: most severe first,
    /// in order of arrival within a tier.
    pub fn sort(&mut self)
        ensures
            final(self)@ == sort_by_severity(old(self)@),
    {
        let mut rest: Vec<Diagnostic> = Vec::new();
        std::mem::swap(&mut rest, &mut self.diagnostics);
        let ghost orig = rest@;
        let _ = rest.len();
        let mut out: Vec<Diagnostic> = Vec::new();
        let mut k: usize = 0;
        while rest.len() > 0
            invariant
                k <= orig.len(),
                k + rest@.len() == orig.len(),
                orig.len() <= usize::MAX,
                rest@ == orig.skip(k as int),
                out@ == sort_by_severity(orig.take(k as int)),
            decreases rest@.len(),
        {
            let x = rest.remove(0);
            proof {
                assert(orig.take(k + 1).drop_last() =~= orig.take(k as int));
                assert(orig.skip(k as int).drop_first() =~= orig.skip(k + 1));
            }
            insert_by_severity_exec(&mut out, x);
            k = k + 1;
        }
        assert(orig.take(k as int) =~= orig);
        self.diagnostics = out;
    }

    /// The collected diagnostics, in their current order.
    pub fn diagnostics(&self) -> (r: &Vec<Diagnostic>)
        ensures
            r@ == self@,
    {
        &self.diagnostics
    }
}

} // verus!

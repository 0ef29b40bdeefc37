use crate::diagnostic::Diagnostic;
use crate::file::FileInterner;
use crate::layout::{build, labels_in, labels_ok, layout, lemma_layout_drawable};
use crate::render::{header_runs, part_drawable, parts_runs, runs_view, Run};
use crate::snippet::parts_view;
use vstd::prelude::*;

verus! {

impl Diagnostic {
    /// Whether every label with a span points into a file of `files`, on a
    /// line whose 1-based number fits.
    pub fn points_into(&self, files: &FileInterner) -> (r: bool)
        ensures
            r == labels_in(self.labels@, files),
    {
        let mut i: usize = 0;
        while i < self.labels.len()
            invariant
                i <= self.labels@.len(),
                forall|j: int|
                    0 <= j < i ==> match (#[trigger] self.labels@[j]).span {
                        Some(sp) => files.contains(sp.file) && sp.end.line < usize::MAX,
                        None => true,
                    },
            decreases self.labels@.len() - i,
        {
            match self.labels[i].span {
                Some(sp) => {
                    if sp.file.0 >= files.len() || sp.end.line == usize::MAX {
                        assert(!match self.labels@[i as int].span {
                            Some(sp) => files.contains(sp.file) && sp.end.line < usize::MAX,
                            None => true,
                        });
                        return false;
                    }
                },
                None => {},
            }
            i = i + 1;
        }
        true
    }
}

/// Lays out and draws a diagnostic against `files`. Fails (`None`) exactly
/// when a label's span runs backwards, has a column at the top of the
/// `usize` range, or points outside `files`.
pub fn render_diagnostic(diagnostic: &Diagnostic, files: &FileInterner) -> (r: Option<Vec<Run>>)
    ensures
        r is Some <==> labels_ok(diagnostic.labels@) && labels_in(diagnostic.labels@, files),
        r matches Some(runs) ==> runs_view(runs@) == header_runs(
            diagnostic.severity,
            diagnostic.code,
            diagnostic.message@,
        ) + parts_runs(layout(diagnostic.labels@), layout(diagnostic.labels@).len(), files@),
{
    if !diagnostic.is_well_formed() || !diagnostic.points_into(files) {
        return None;
    }
    let _ = diagnostic.labels.len();
    let snippet = build(diagnostic);
    proof {
        lemma_layout_drawable(diagnostic.labels@, files);
        assert forall|k: int| 0 <= k < snippet.parts@.len() implies part_drawable(
            #[trigger] snippet.parts@[k]@,
            files,
        ) by {
            assert(parts_view(snippet.parts@)[k] == snippet.parts@[k]@);
        }
    }
    Some(snippet.write(files))
}

} // verus!

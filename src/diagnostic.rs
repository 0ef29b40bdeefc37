use crate::span::Span;
use vstd::prelude::*;

verus! {

/// How serious a diagnostic is, from the most severe down.
#[derive(Debug, Clone, Copy, PartialEq, Eq, Structural, PartialOrd, Ord, Hash)]
pub enum Severity {
    Bug,
    Error,
    Warning,
    Info,
    Help,
}

impl Severity {
    /// 0 for the most severe tier, growing as severity falls.
    pub open spec fn spec_rank(&self) -> u8 {
        match *self {
            Severity::Bug => 0,
            Severity::Error => 1,
            Severity::Warning => 2,
            Severity::Info => 3,
            Severity::Help => 4,
        }
    }

    #[verifier::when_used_as_spec(spec_rank)]
    pub fn rank(&self) -> (r: u8)
        ensures
            r == self.spec_rank(),
    {
        match *self {
            Severity::Bug => 0,
            Severity::Error => 1,
            Severity::Warning => 2,
            Severity::Info => 3,
            Severity::Help => 4,
        }
    }

    /// Error tier or above.
    pub open spec fn spec_is_error(&self) -> bool {
        self.spec_rank() <= 1
    }

    #[verifier::when_used_as_spec(spec_is_error)]
    pub fn is_error(&self) -> (r: bool)
        ensures
            r == self.spec_is_error(),
    {
        self.rank() <= 1
    }

    /// The name printed in a diagnostic's header, as ASCII bytes.
    pub open spec fn spec_name(&self) -> Seq<u8> {
        match *self {
            Severity::Bug => seq![98u8, 117, 103],
            Severity::Error => seq![101u8, 114, 114, 111, 114],
            Severity::Warning => seq![119u8, 97, 114, 110, 105, 110, 103],
            Severity::Info => seq![105u8, 110, 102, 111],
            Severity::Help => seq![104u8, 101, 108, 112],
        }
    }

    pub fn name(&self) -> (r: Vec<u8>)
        ensures
            r@ == self.spec_name(),
    {
        let r = match *self {
            Severity::Bug => vec![98u8, 117, 103],
            Severity::Error => vec![101u8, 114, 114, 111, 114],
            Severity::Warning => vec![119u8, 97, 114, 110, 105, 110, 103],
            Severity::Info => vec![105u8, 110, 102, 111],
            Severity::Help => vec![104u8, 101, 108, 112],
        };
        assert(r@ =~= self.spec_name());
        r
    }

    /// The ASCII byte repeated under the columns an annotation covers.
    pub open spec fn spec_marker(&self) -> u8 {
        match *self {
            Severity::Bug => 94u8,
            Severity::Error => 94u8,
            Severity::Warning => 126u8,
            Severity::Info => 45u8,
            Severity::Help => 45u8,
        }
    }

    #[verifier::when_used_as_spec(spec_marker)]
    pub fn marker(&self) -> (r: u8)
        ensures
            r == self.spec_marker(),
    {
        match *self {
            Severity::Bug => 94u8,
            Severity::Error => 94u8,
            Severity::Warning => 126u8,
            Severity::Info => 45u8,
            Severity::Help => 45u8,
        }
    }
}

/// A pointer into source (or, without a span, a note) with its own severity
/// and an optional message.
#[derive(Debug)]
pub struct Label {
    pub severity: Severity,
    pub span: Option<Span>,
    pub message: Option<String>,
}

/// One report: a severity, an optional numeric code, a headline and labels.
#[derive(Debug)]
pub struct Diagnostic {
    pub severity: Severity,
    pub code: Option<u16>,
    pub message: String,
    pub labels: Vec<Label>,
}

impl Diagnostic {
    pub fn new(severity: Severity, code: Option<u16>, message: String) -> (r: Diagnostic)
        ensures
            r.severity == severity,
            r.code == code,
            r.message == message,
            r.labels@.len() == 0,
    {
        Diagnostic { severity, code, message, labels: Vec::new() }
    }

    /// Appends a label and hands the diagnostic back.
    pub fn label(self, severity: Severity, span: Option<Span>, message: Option<String>) -> (r:
        Diagnostic)
        ensures
            r.severity == self.severity,
            r.code == self.code,
            r.message == self.message,
            r.labels@ == self.labels@.push(Label { severity, span, message }),
    {
        let mut d = self;
        d.labels.push(Label { severity, span, message });
        d
    }
}

} // verus!

//! Compiler-style diagnostics: a span model, a file table, a layout builder
//! that turns labelled spans into a per-line annotation plan, and a renderer
//! that turns that plan into styled terminal text.

pub mod binary;
pub mod diagnostic;
pub mod emit;
pub mod file;
pub mod layout;
pub mod render;
pub mod reporter;
pub mod snippet;
pub mod span;
pub mod wire;

pub use binary::{BinaryDecoder, BinaryEncoder, DecodeError};
pub use diagnostic::{Diagnostic, Label, Severity};
pub use emit::render_diagnostic;
pub use file::{FileId, FileInfo, FileInterner};
pub use layout::build;
pub use render::{Glyph, Run, Style};
pub use reporter::Reporter;
pub use snippet::{Annotation, AnnotationKind, Line, MultilineAnnotation, Snippet, SnippetPart};
pub use span::{Position, Span, Spanned};

//! What the compiler says when it refuses a program, and where it points.

use vstd::prelude::*;

verus! {

/// A run of bytes of the source.
#[derive(Clone, Copy, Debug, PartialEq, Eq, Structural)]
pub struct Span {
    pub offset: usize,
    pub len: usize,
}

impl Span {
    pub fn new(offset: usize, len: usize) -> (span: Span)
        ensures
            span == (Span { offset, len }),
    {
        Span { offset, len }
    }
}

/// One message about one place, with what is written beside the caret and what
/// is added underneath.
#[derive(Debug)]
pub struct Diagnostic {
    pub message: String,
    pub span: Span,
    pub label: Option<String>,
    pub note: Option<(String, Option<Span>)>,
}

/// A [`Diagnostic`] as the text it holds.
#[verifier::ext_equal]
pub struct DiagnosticView {
    pub message: Seq<char>,
    pub span: Span,
    pub label: Option<Seq<char>>,
    pub note: Option<(Seq<char>, Option<Span>)>,
}

impl View for Diagnostic {
    type V = DiagnosticView;

    open spec fn view(&self) -> DiagnosticView {
        DiagnosticView {
            message: self.message@,
            span: self.span,
            label: match self.label {
                Some(label) => Some(label@),
                None => None,
            },
            note: match self.note {
                Some(note) => Some((note.0@, note.1)),
                None => None,
            },
        }
    }
}

impl DiagnosticView {
    /// A message and a place, with nothing beside it yet.
    pub open spec fn plain(message: Seq<char>, span: Span) -> DiagnosticView {
        DiagnosticView { message, span, label: None, note: None }
    }

    pub open spec fn labelled(self, label: Seq<char>) -> DiagnosticView {
        DiagnosticView { label: Some(label), ..self }
    }

    pub open spec fn noted(self, note: Seq<char>) -> DiagnosticView {
        DiagnosticView { note: Some((note, None)), ..self }
    }
}

impl Diagnostic {
    pub fn new(message: String, span: Span) -> (diagnostic: Diagnostic)
        ensures
            diagnostic@ == DiagnosticView::plain(message@, span),
    {
        Diagnostic { message, span, label: None, note: None }
    }

    /// What is written beside the caret.
    pub fn with_label(self, label: String) -> (diagnostic: Diagnostic)
        ensures
            diagnostic@ == self@.labelled(label@),
    {
        Diagnostic { message: self.message, span: self.span, label: Some(label), note: self.note }
    }

    /// What is added underneath, about nowhere in particular.
    pub fn with_note(self, note: String) -> (diagnostic: Diagnostic)
        ensures
            diagnostic@ == self@.noted(note@),
    {
        Diagnostic {
            message: self.message,
            span: self.span,
            label: self.label,
            note: Some((note, None)),
        }
    }
}

/// The text of each of a run of diagnostics.
pub open spec fn diagnostic_views(diagnostics: Seq<Diagnostic>) -> Seq<DiagnosticView> {
    diagnostics.map_values(|diagnostic: Diagnostic| diagnostic@)
}

} // verus!

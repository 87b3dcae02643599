//! Diagnostics: what the scanner reports about text it could not turn into
//! a token. None of them stops the scan.

use vstd::prelude::*;

verus! {

/// What went wrong.
#[derive(Clone, Copy, Debug, PartialEq, Eq, Hash, Structural)]
pub enum DiagnosticKind {
    /// A character that no token can start with.
    UnexpectedCharacter(char),
    /// A string literal that is still open at the end of the input.
    UnterminatedString,
    /// A digit-led lexeme that does not denote a number.
    NumberParseFailure,
}

/// One report of the scanner.
#[derive(Clone, Copy, Debug, PartialEq, Eq, Hash)]
pub struct Diagnostic {
    /// What went wrong.
    pub kind: DiagnosticKind,
    /// The 1-based line that the scanner had reached when it gave up on the
    /// lexeme.
    pub line: usize,
    /// The position of the first character of the lexeme, counted in
    /// characters from the start of the source.
    pub start: usize,
    /// The position just after the last character of the lexeme.
    pub end: usize,
}

/// The mathematical model of a [`Diagnostic`].
pub struct DiagnosticSpec {
    pub kind: DiagnosticKind,
    pub line: nat,
    pub start: nat,
    pub end: nat,
}

impl View for Diagnostic {
    type V = DiagnosticSpec;

    open spec fn view(&self) -> DiagnosticSpec {
        DiagnosticSpec {
            kind: self.kind,
            line: self.line as nat,
            start: self.start as nat,
            end: self.end as nat,
        }
    }
}

/// The models of a sequence of diagnostics, in order.
pub open spec fn diagnostic_views(diagnostics: Seq<Diagnostic>) -> Seq<DiagnosticSpec> {
    Seq::new(diagnostics.len(), |i: int| diagnostics[i]@)
}

} // verus!

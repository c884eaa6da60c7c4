//! Source positions attached to parsed configuration text.

use vstd::prelude::*;

verus! {

/// Line number in the source text, 1-indexed.
#[derive(Debug, Clone, Copy, PartialEq, Eq, Structural)]
pub struct LineNumber(pub u32);

impl LineNumber {
    /// The underlying line number.
    pub fn get(&self) -> (r: u32)
        ensures
            r == self.0,
    {
        self.0
    }
}

/// A position range in the source text.
///
/// Only the line is ever surfaced in rendered diagnostics; the column
/// fields are tracked for ordering operations that share a line.
#[derive(Debug, Clone, Copy, PartialEq, Eq, Structural)]
pub struct Span {
    /// Line the span lies on.
    pub line: LineNumber,
    /// Zero-based column where the span starts.
    pub col_start: u32,
    /// Zero-based column where the span ends.
    pub col_end: u32,
}

impl Span {
    /// A span covering only a line; columns default to 0.
    pub fn line_only(line: u32) -> (r: Span)
        ensures
            r == (Span { line: LineNumber(line), col_start: 0, col_end: 0 }),
    {
        Span { line: LineNumber(line), col_start: 0, col_end: 0 }
    }
}

/// Whether `a` orders strictly before `b` by `(line, col_start, col_end)`.
pub open spec fn span_lt(a: Span, b: Span) -> bool {
    a.line.0 < b.line.0 || (a.line.0 == b.line.0 && (a.col_start < b.col_start || (a.col_start
        == b.col_start && a.col_end < b.col_end)))
}

/// A value together with the source span it was parsed from.
#[derive(Debug, Clone)]
pub struct Spanned<T> {
    /// The parsed value.
    pub value: T,
    /// Where the value came from.
    pub span: Span,
}

impl<T> Spanned<T> {
    /// Attach a span to a value.
    pub fn new(value: T, span: Span) -> (r: Spanned<T>)
        ensures
            r.value == value,
            r.span == span,
    {
        Spanned { value, span }
    }

    /// Borrow the inner value while keeping the span.
    pub fn as_ref(&self) -> (r: Spanned<&T>)
        ensures
            r.value == &self.value,
            r.span == self.span,
    {
        Spanned { value: &self.value, span: self.span }
    }

    /// Transform the inner value while preserving the span.
    pub fn map<U, F: FnOnce(T) -> U>(self, f: F) -> (r: Spanned<U>)
        requires
            f.requires((self.value,)),
        ensures
            f.ensures((self.value,), r.value),
            r.span == self.span,
    {
        Spanned { value: f(self.value), span: self.span }
    }

    /// Split into the value and its span.
    pub fn into_parts(self) -> (r: (T, Span))
        ensures
            r.0 == self.value,
            r.1 == self.span,
    {
        (self.value, self.span)
    }
}

} // verus!

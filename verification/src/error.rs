//! The failures that evaluating a statement can end in.

use crate::parser::{Span, SpanView};
use crate::text::{decimal, push_decimal, push_text};
use vstd::prelude::*;

verus! {

/// Why a statement failed.
#[derive(Debug)]
pub enum ErrorKind {
    /// Two asserted expressions denote different dimensions; the fields are
    /// the renderings of the expected and of the actual unit.
    AssertFail(String, String),
    /// The name is already bound in the current scope.
    VariableAlreadyDeclared(String),
    /// The name is bound in no enclosing scope.
    VariableNotDeclared(String),
    /// An exponent left the range of the machine word that holds it.
    ExponentOverflow,
    /// A name stands for itself: following what the names are bound to
    /// does not come to an end.
    CyclicDefinition,
}

/// A failure together with the stretch of source text it arose at.
#[derive(Debug)]
pub struct DigifyError {
    kind: ErrorKind,
    span: Span,
}

/// Why a statement failed, with the texts it names.
pub enum Cause {
    /// Two asserted expressions denote different dimensions.
    AssertFail(Seq<char>, Seq<char>),
    /// The name is already bound in the current scope.
    AlreadyDeclared(Seq<char>),
    /// The name is bound in no enclosing scope.
    NotDeclared(Seq<char>),
    /// An exponent left the range of the machine word.
    Overflow,
    /// Following what the names are bound to does not come to an end.
    Cyclic,
}

impl View for ErrorKind {
    type V = Cause;

    open spec fn view(&self) -> Cause {
        match self {
            ErrorKind::AssertFail(expected, actual) => Cause::AssertFail(expected@, actual@),
            ErrorKind::VariableAlreadyDeclared(ident) => Cause::AlreadyDeclared(ident@),
            ErrorKind::VariableNotDeclared(ident) => Cause::NotDeclared(ident@),
            ErrorKind::ExponentOverflow => Cause::Overflow,
            ErrorKind::CyclicDefinition => Cause::Cyclic,
        }
    }
}

impl View for DigifyError {
    type V = (Cause, SpanView);

    open spec fn view(&self) -> (Cause, SpanView) {
        (self.kind_spec()@, self.span_spec()@)
    }
}

/// The sentence that describes a failure.
pub open spec fn kind_text(kind: ErrorKind) -> Seq<char> {
    match kind {
        ErrorKind::AssertFail(expected, actual) => "Assertion failed: expected "@ + expected@
            + ", got "@ + actual@,
        ErrorKind::VariableAlreadyDeclared(ident) => "Variable "@ + ident@
            + " already declared"@,
        ErrorKind::VariableNotDeclared(ident) => "Variable "@ + ident@ + " not declared"@,
        ErrorKind::ExponentOverflow => "Exponent out of range"@,
        ErrorKind::CyclicDefinition => "Definition refers to itself"@,
    }
}

/// The text between the line number and the source text: empty where the
/// stretch begins in the first column.
pub open spec fn padding(col: usize) -> Seq<char> {
    if col == 1 {
        ""@
    } else {
        " ... "@
    }
}

/// The full report of a failure: line number, source text, and on the next
/// line, after a tab, the sentence that describes it.
pub open spec fn report(kind: ErrorKind, span: Span) -> Seq<char> {
    decimal(span.start_spec().line_spec() as nat) + " | "@ + padding(span.start_spec().col_spec())
        + span.input_view() + "\n\t"@ + kind_text(kind)
}

impl ErrorKind {
    /// The sentence that describes this failure.
    pub fn describe(&self) -> (r: String)
        ensures
            r@ == kind_text(*self),
    {
        let mut out = String::new();
        match self {
            ErrorKind::AssertFail(expected, actual) => {
                push_text(&mut out, "Assertion failed: expected ");
                push_text(&mut out, expected.as_str());
                push_text(&mut out, ", got ");
                push_text(&mut out, actual.as_str());
                assert(out@ =~= kind_text(*self));
            },
            ErrorKind::VariableAlreadyDeclared(ident) => {
                push_text(&mut out, "Variable ");
                push_text(&mut out, ident.as_str());
                push_text(&mut out, " already declared");
                assert(out@ =~= kind_text(*self));
            },
            ErrorKind::VariableNotDeclared(ident) => {
                push_text(&mut out, "Variable ");
                push_text(&mut out, ident.as_str());
                push_text(&mut out, " not declared");
                assert(out@ =~= kind_text(*self));
            },
            ErrorKind::ExponentOverflow => {
                push_text(&mut out, "Exponent out of range");
                assert(out@ =~= kind_text(*self));
            },
            ErrorKind::CyclicDefinition => {
                push_text(&mut out, "Definition refers to itself");
                assert(out@ =~= kind_text(*self));
            },
        }
        out
    }
}

impl DigifyError {
    /// What went wrong.
    pub closed spec fn kind_spec(&self) -> ErrorKind {
        self.kind
    }

    /// Where it went wrong.
    pub closed spec fn span_spec(&self) -> Span {
        self.span
    }

    /// A failure of the given kind at the given place.
    pub fn new(kind: ErrorKind, span: Span) -> (r: DigifyError)
        ensures
            r.kind_spec() == kind,
            r.span_spec() == span,
    {
        DigifyError { kind, span }
    }

    /// Gives up the failure for what went wrong.
    pub fn into_kind(self) -> (r: ErrorKind)
        ensures
            r == self.kind_spec(),
    {
        self.kind
    }

    /// What went wrong.
    pub fn kind(&self) -> (r: &ErrorKind)
        ensures
            *r == self.kind_spec(),
    {
        &self.kind
    }

    /// Where it went wrong.
    pub fn span(&self) -> (r: &Span)
        ensures
            *r == self.span_spec(),
    {
        &self.span
    }

    /// The report of this failure, as it is shown to the user.
    pub fn to_string(&self) -> (r: String)
        ensures
            r@ == report(self.kind_spec(), self.span_spec()),
    {
        let mut out = String::new();
        push_decimal(&mut out, self.span.start().line() as u64);
        push_text(&mut out, " | ");
        if self.span.start().col() == 1 {
            push_text(&mut out, "");
        } else {
            push_text(&mut out, " ... ");
        }
        push_text(&mut out, self.span.input());
        push_text(&mut out, "\n\t");
        let sentence = self.kind.describe();
        push_text(&mut out, sentence.as_str());
        assert(out@ =~= report(self.kind_spec(), self.span_spec()));
        out
    }
}

} // verus!

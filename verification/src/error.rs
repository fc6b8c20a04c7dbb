//! How parsers fail, and the error values they report.

use vstd::prelude::*;
use crate::input::{Input, SpecInput};

verus! {

/// What a streaming parser still needs before it can decide.
#[derive(Clone, Copy, Debug, PartialEq, Eq, Structural)]
pub enum Needed {
    /// An unknown number of further bytes.
    Unknown,
    /// In total this many bytes.
    Size(usize),
}

/// The reason a parser failed.
#[derive(Clone, Copy, Debug, PartialEq, Eq, Structural)]
pub enum ErrorKind {
    Tag,
    Eof,
    Complete,
    Many0,
    Many1,
    ManyTill,
    SeparatedList,
    ManyMN,
    Many0Count,
    Many1Count,
    Count,
}

/// How a parser failed.
///
/// `Error` is recoverable: a combinator may try something else.  `Failure`
/// is not: it is passed through unchanged.  `Incomplete` asks for more input.
#[derive(Clone, Debug, PartialEq, Eq)]
pub enum ErrMode<E> {
    Incomplete(Needed),
    Error(E),
    Failure(E),
}

/// The errors a parser can report.
///
/// `from_error_kind` makes an error at an input; `append` adds the context
/// of an enclosing combinator to an error.  Both are stated over the view of
/// the error.
pub trait ParseError<'a>: View + Sized {
    spec fn spec_from_error_kind(input: SpecInput, kind: ErrorKind) -> Self::V;

    spec fn spec_append(input: SpecInput, kind: ErrorKind, other: Self::V) -> Self::V;

    fn from_error_kind(input: Input<'a>, kind: ErrorKind) -> (r: Self)
        ensures
            r@ == Self::spec_from_error_kind(input@, kind),
    ;

    fn append(input: Input<'a>, kind: ErrorKind, other: Self) -> (r: Self)
        ensures
            r@ == Self::spec_append(input@, kind, other@),
    ;
}

/// An error that records where it happened and why, and keeps only the
/// innermost error when context is appended.
#[derive(Clone, Copy, Debug, PartialEq, Eq)]
pub struct Error<'a> {
    pub input: Input<'a>,
    pub kind: ErrorKind,
}

/// The model of an [`Error`].
pub struct SpecError {
    pub input: SpecInput,
    pub kind: ErrorKind,
}

impl<'a> View for Error<'a> {
    type V = SpecError;

    open spec fn view(&self) -> SpecError {
        SpecError { input: self.input@, kind: self.kind }
    }
}

impl<'a> ParseError<'a> for Error<'a> {
    open spec fn spec_from_error_kind(input: SpecInput, kind: ErrorKind) -> SpecError {
        SpecError { input, kind }
    }

    open spec fn spec_append(input: SpecInput, kind: ErrorKind, other: SpecError) -> SpecError {
        other
    }

    fn from_error_kind(input: Input<'a>, kind: ErrorKind) -> (r: Error<'a>) {
        Error { input, kind }
    }

    fn append(input: Input<'a>, kind: ErrorKind, other: Error<'a>) -> (r: Error<'a>) {
        other
    }
}

/// An error that keeps every context appended to it: the innermost error
/// first, then each enclosing combinator's, in order.
#[derive(Clone, Debug, PartialEq, Eq)]
pub struct VerboseError<'a> {
    pub errors: Vec<(Input<'a>, ErrorKind)>,
}

impl<'a> View for VerboseError<'a> {
    type V = Seq<(SpecInput, ErrorKind)>;

    open spec fn view(&self) -> Seq<(SpecInput, ErrorKind)> {
        Seq::new(self.errors@.len(), |i: int| (self.errors@[i].0@, self.errors@[i].1))
    }
}

impl<'a> ParseError<'a> for VerboseError<'a> {
    open spec fn spec_from_error_kind(input: SpecInput, kind: ErrorKind) -> Seq<(SpecInput, ErrorKind)> {
        seq![(input, kind)]
    }

    open spec fn spec_append(input: SpecInput, kind: ErrorKind, other: Seq<(SpecInput, ErrorKind)>) -> Seq<
        (SpecInput, ErrorKind),
    > {
        other.push((input, kind))
    }

    fn from_error_kind(input: Input<'a>, kind: ErrorKind) -> (r: VerboseError<'a>) {
        let mut errors = Vec::new();
        errors.push((input, kind));
        let r = VerboseError { errors };
        assert(r@ =~= seq![(input@, kind)]);
        r
    }

    fn append(input: Input<'a>, kind: ErrorKind, other: VerboseError<'a>) -> (r: VerboseError<'a>) {
        let mut errors = other.errors;
        let ghost old_view = other@;
        errors.push((input, kind));
        let r = VerboseError { errors };
        assert(r@ =~= old_view.push((input@, kind)));
        r
    }
}

} // verus!

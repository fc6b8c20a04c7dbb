//! `length_value`: a length, then a value parsed from exactly that many
//! bytes.

use vstd::prelude::*;
use crate::input::{Input, SpecInput, IResult, SpecResult, Parser, view_result};
use crate::error::{ErrMode, ErrorKind, Needed, ParseError};
use crate::multi::many::{lemma_progress, lemma_suffix_trans};

verus! {

/// A parsed number that can serve as a length.
pub trait IntoLength: DeepView {
    spec fn spec_into_length(v: <Self as DeepView>::V) -> usize;

    fn into_length(&self) -> (r: usize)
        ensures
            r == Self::spec_into_length(self.deep_view()),
    ;
}

impl IntoLength for u8 {
    open spec fn spec_into_length(v: u8) -> usize {
        v as usize
    }

    fn into_length(&self) -> (r: usize) {
        *self as usize
    }
}

impl IntoLength for u16 {
    open spec fn spec_into_length(v: u16) -> usize {
        v as usize
    }

    fn into_length(&self) -> (r: usize) {
        *self as usize
    }
}

impl IntoLength for bool {
    open spec fn spec_into_length(v: bool) -> usize {
        if v {
            1
        } else {
            0
        }
    }

    fn into_length(&self) -> (r: usize) {
        if *self {
            1
        } else {
            0
        }
    }
}

impl IntoLength for usize {
    open spec fn spec_into_length(v: usize) -> usize {
        v
    }

    fn into_length(&self) -> (r: usize) {
        *self
    }
}

/// What `length_value(f, g)` computes.
///
/// `f` reads a length.  Fewer bytes than that left is `Incomplete`, asking
/// for that many.  Otherwise `g` runs on exactly those bytes, and whatever
/// follows them is the rest; `g` asking for more input is an `Error` of kind
/// `Complete` at those bytes, and what `g` leaves of them is dropped.
pub open spec fn spec_length_value<'a, E: ParseError<'a>, F: Parser<'a, E>, G: Parser<'a, E>>(
    f: F,
    g: G,
    s: SpecInput,
) -> SpecResult<<G::Output as DeepView>::V, E::V> where F::Output: IntoLength {
    match f.spec_parse(s) {
        Err(e) => Err(e),
        Ok((r, n)) => {
            let len = <F::Output as IntoLength>::spec_into_length(n);
            if r.data.len() < len {
                Err(ErrMode::Incomplete(Needed::Size(len)))
            } else {
                let taken = r.take(len as int);
                match g.spec_parse(taken) {
                    Err(ErrMode::Incomplete(_)) => Err(
                        ErrMode::Error(E::spec_from_error_kind(taken, ErrorKind::Complete)),
                    ),
                    Err(e) => Err(e),
                    Ok((_, o)) => Ok((r.skip(len as int), o)),
                }
            }
        },
    }
}

/// A value parsed from a length-prefixed block.
pub struct LengthValue<F, G> {
    pub f: F,
    pub g: G,
}

/// Reads a length with `f`, then applies `g` to exactly that many bytes.
pub fn length_value<F, G>(f: F, g: G) -> (r: LengthValue<F, G>)
    ensures
        r.f == f,
        r.g == g,
{
    LengthValue { f, g }
}

impl<'a, E: ParseError<'a>, F: Parser<'a, E>, G: Parser<'a, E>> Parser<'a, E> for LengthValue<F, G> where
    F::Output: IntoLength,
 {
    type Output = G::Output;

    open spec fn spec_parse(&self, input: SpecInput) -> SpecResult<<G::Output as DeepView>::V, E::V> {
        spec_length_value(self.f, self.g, input)
    }

    proof fn lemma_parse_consumes(&self, input: SpecInput) {
        lemma_progress(self.f, input);
        if let Ok((r, n)) = self.f.spec_parse(input) {
            let len = <F::Output as IntoLength>::spec_into_length(n);
            if len <= r.data.len() {
                let rest = r.skip(len as int);
                assert(rest.data =~= r.data.skip(r.data.len() - rest.data.len()));
                lemma_suffix_trans(rest, r, input);
            }
        }
    }

    fn parse(&self, i: Input<'a>) -> (r: IResult<'a, G::Output, E>) {
        proof {
            lemma_progress(self.f, i@);
        }
        let (i, length) = match self.f.parse(i) {
            Ok(v) => v,
            Err(e) => {
                return Err(e);
            },
        };
        let len = length.into_length();
        if i.input_len() < len {
            Err(ErrMode::Incomplete(Needed::Size(len)))
        } else {
            let (rest, taken) = i.take_split(len);
            match self.g.parse(taken) {
                Err(ErrMode::Incomplete(_)) => Err(
                    ErrMode::Error(E::from_error_kind(taken, ErrorKind::Complete)),
                ),
                Err(e) => Err(e),
                Ok((_, o)) => Ok((rest, o)),
            }
        }
    }
}

/// Runs `length_value(f, g)` on `input`.
pub fn length_valuec<'a, E: ParseError<'a>, F: Parser<'a, E>, G: Parser<'a, E>>(input: Input<'a>, f: F, g: G) -> (r: IResult<
    'a,
    G::Output, E>) where F::Output: IntoLength
    requires
        input@.wf(),
    ensures
        view_result(r) == spec_length_value(f, g, input@),
{
    length_value(f, g).parse(input)
}

} // verus!

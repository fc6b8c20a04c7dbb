//! `many0_count` and `many1_count`: repeat a parser and count how often it
//! succeeded.

use vstd::prelude::*;
use crate::input::{Input, SpecInput, IResult, SpecResult, Parser, same_input, view_result};
use crate::error::{ErrMode, ErrorKind, ParseError};
use crate::multi::many::{lemma_progress, lemma_suffix_trans, lemma_suffix_refl};

verus! {

/// The result of a counting loop, with the count as a number.
pub type CountResult<EV> = Result<(SpecInput, nat), ErrMode<EV>>;

/// A count as the value of a parser.
pub open spec fn count_as_usize<EV>(r: CountResult<EV>) -> SpecResult<usize, EV> {
    match r {
        Ok((rest, c)) => Ok((rest, c as usize)),
        Err(e) => Err(e),
    }
}

/// The loop of `many0_count` from `s`, with `count` successes so far.
///
/// An `Error` ends it with the count.  A success that consumes nothing ends
/// it with the count on a complete input, and is an `Error` of kind
/// `Many0Count` on a streaming one.  Other failures are passed on.
pub open spec fn spec_many0_count_loop<'a, E: ParseError<'a>, P: Parser<'a, E>>(p: P, s: SpecInput, count: nat) -> CountResult<E::V>
    decreases s.data.len(),
    via spec_many0_count_loop_decreases::<'a, E, P>
{
    match p.spec_parse(s) {
        Ok((r, _)) => if r == s {
            if r.eof {
                Ok((s, count))
            } else {
                Err(ErrMode::Error(E::spec_from_error_kind(s, ErrorKind::Many0Count)))
            }
        } else {
            spec_many0_count_loop(p, r, count + 1)
        },
        Err(ErrMode::Error(_)) => Ok((s, count)),
        Err(e) => Err(e),
    }
}

#[via_fn]
proof fn spec_many0_count_loop_decreases<'a, E: ParseError<'a>, P: Parser<'a, E>>(p: P, s: SpecInput, count: nat) {
    lemma_progress(p, s);
}

/// The loop of `many1_count` after its first success: as that of
/// `many0_count`, except that a success that consumes nothing ends it with
/// the count.
pub open spec fn spec_many1_count_loop<'a, E: ParseError<'a>, P: Parser<'a, E>>(p: P, s: SpecInput, count: nat) -> CountResult<E::V>
    decreases s.data.len(),
    via spec_many1_count_loop_decreases::<'a, E, P>
{
    match p.spec_parse(s) {
        Err(ErrMode::Error(_)) => Ok((s, count)),
        Err(e) => Err(e),
        Ok((r, _)) => if r == s {
            Ok((s, count))
        } else {
            spec_many1_count_loop(p, r, count + 1)
        },
    }
}

#[via_fn]
proof fn spec_many1_count_loop_decreases<'a, E: ParseError<'a>, P: Parser<'a, E>>(p: P, s: SpecInput, count: nat) {
    lemma_progress(p, s);
}

/// The counting loops stop at a suffix of where they start, and each
/// success they count consumed at least one byte.
pub proof fn lemma_count_loops<'a, E: ParseError<'a>, P: Parser<'a, E>>(p: P, s: SpecInput, count: nat)
    ensures
        spec_many0_count_loop(p, s, count) matches Ok((rest, c)) ==> rest.is_suffix_of(s) && count
            <= c <= count + s.data.len() - rest.data.len(),
        spec_many1_count_loop(p, s, count) matches Ok((rest, c)) ==> rest.is_suffix_of(s) && count
            <= c <= count + s.data.len() - rest.data.len(),
    decreases s.data.len(),
{
    lemma_progress(p, s);
    lemma_suffix_refl(s);
    if let Ok((r, _)) = p.spec_parse(s) {
        if r != s {
            lemma_count_loops(p, r, count + 1);
            if let Ok((t, _)) = spec_many0_count_loop(p, r, count + 1) {
                lemma_suffix_trans(t, r, s);
            }
            if let Ok((t, _)) = spec_many1_count_loop(p, r, count + 1) {
                lemma_suffix_trans(t, r, s);
            }
        }
    }
}

/// Counts the successes of a parser.
pub struct Many0Count<P> {
    pub parser: P,
}

/// Applies `f` as long as it succeeds and returns how often it did.
pub fn many0_count<P>(f: P) -> (r: Many0Count<P>)
    ensures
        r.parser == f,
{
    Many0Count { parser: f }
}

/// What `many0_count(f)` computes.
pub open spec fn spec_many0_count<'a, E: ParseError<'a>, P: Parser<'a, E>>(p: P, s: SpecInput) -> SpecResult<usize, E::V> {
    count_as_usize(spec_many0_count_loop(p, s, 0))
}

impl<'a, E: ParseError<'a>, P: Parser<'a, E>> Parser<'a, E> for Many0Count<P> {
    type Output = usize;

    open spec fn spec_parse(&self, input: SpecInput) -> SpecResult<usize, E::V> {
        spec_many0_count(self.parser, input)
    }

    proof fn lemma_parse_consumes(&self, input: SpecInput) {
        lemma_count_loops(self.parser, input, 0);
    }

    fn parse(&self, i: Input<'a>) -> (r: IResult<'a, usize, E>) {
        let mut input = i;
        let mut count: usize = 0;
        loop
            invariant
                input@.wf(),
                i@.wf(),
                input@.data.len() <= i@.data.len(),
                count <= i@.data.len() - input@.data.len(),
                spec_many0_count_loop(self.parser, i@, 0) == spec_many0_count_loop(
                    self.parser,
                    input@,
                    count as nat,
                ),
            decreases input@.data.len(),
        {
            proof {
                lemma_progress(self.parser, input@);
            }
            match self.parser.parse(input) {
                Ok((rest, _)) => {
                    if same_input(&rest, &input) {
                        return if rest.at_eof() {
                            Ok((input, count))
                        } else {
                            Err(ErrMode::Error(E::from_error_kind(input, ErrorKind::Many0Count)))
                        };
                    }
                    input = rest;
                    count = count + 1;
                },
                Err(ErrMode::Error(_)) => {
                    return Ok((input, count));
                },
                Err(e) => {
                    return Err(e);
                },
            }
        }
    }
}

/// Runs `many0_count(f)` on `input`.
pub fn many0_countc<'a, E: ParseError<'a>, P: Parser<'a, E>>(input: Input<'a>, f: P) -> (r: IResult<'a, usize, E>)
    requires
        input@.wf(),
    ensures
        view_result(r) == spec_many0_count(f, input@),
{
    many0_count(f).parse(input)
}

/// Counts the successes of a parser, which must succeed at least once.
pub struct Many1Count<P> {
    pub parser: P,
}

/// Applies `f` once, then as long as it succeeds, and returns how often it
/// did.
pub fn many1_count<P>(f: P) -> (r: Many1Count<P>)
    ensures
        r.parser == f,
{
    Many1Count { parser: f }
}

/// What `many1_count(f)` computes: an `Error` or a `Failure` of the first
/// application becomes one of kind `Many1Count` at the start.
pub open spec fn spec_many1_count<'a, E: ParseError<'a>, P: Parser<'a, E>>(p: P, s: SpecInput) -> SpecResult<usize, E::V> {
    match p.spec_parse(s) {
        Err(ErrMode::Error(_)) => Err(ErrMode::Error(E::spec_from_error_kind(s, ErrorKind::Many1Count))),
        Err(ErrMode::Failure(_)) => Err(ErrMode::Failure(E::spec_from_error_kind(s, ErrorKind::Many1Count))),
        Err(ErrMode::Incomplete(n)) => Err(ErrMode::Incomplete(n)),
        Ok((r, _)) => count_as_usize(spec_many1_count_loop(p, r, 1)),
    }
}

impl<'a, E: ParseError<'a>, P: Parser<'a, E>> Parser<'a, E> for Many1Count<P> {
    type Output = usize;

    open spec fn spec_parse(&self, input: SpecInput) -> SpecResult<usize, E::V> {
        spec_many1_count(self.parser, input)
    }

    proof fn lemma_parse_consumes(&self, input: SpecInput) {
        lemma_progress(self.parser, input);
        if let Ok((r, _)) = self.parser.spec_parse(input) {
            lemma_count_loops(self.parser, r, 1);
            if let Ok((t, _)) = spec_many1_count_loop(self.parser, r, 1) {
                lemma_suffix_trans(t, r, input);
            }
        }
    }

    fn parse(&self, i: Input<'a>) -> (r: IResult<'a, usize, E>) {
        proof {
            lemma_progress(self.parser, i@);
        }
        match self.parser.parse(i) {
            Err(ErrMode::Error(_)) => Err(ErrMode::Error(E::from_error_kind(i, ErrorKind::Many1Count))),
            Err(ErrMode::Failure(_)) => Err(ErrMode::Failure(E::from_error_kind(i, ErrorKind::Many1Count))),
            Err(ErrMode::Incomplete(n)) => Err(ErrMode::Incomplete(n)),
            Ok((i1, _)) => {
                let mut count: usize = 1;
                let mut input = i1;
                loop
                    invariant
                        input@.wf(),
                        i@.wf(),
                        input@.data.len() <= i@.data.len(),
                        1 <= count <= 1 + i@.data.len() - input@.data.len(),
                        spec_many1_count(self.parser, i@) == count_as_usize(
                            spec_many1_count_loop(self.parser, input@, count as nat),
                        ),
                    decreases input@.data.len(),
                {
                    proof {
                        lemma_progress(self.parser, input@);
                    }
                    match self.parser.parse(input) {
                        Err(ErrMode::Error(_)) => {
                            return Ok((input, count));
                        },
                        Err(e) => {
                            return Err(e);
                        },
                        Ok((rest, _)) => {
                            if same_input(&rest, &input) {
                                return Ok((input, count));
                            }
                            count = count + 1;
                            input = rest;
                        },
                    }
                }
            },
        }
    }
}

/// Runs `many1_count(f)` on `input`.
pub fn many1_countc<'a, E: ParseError<'a>, P: Parser<'a, E>>(input: Input<'a>, f: P) -> (r: IResult<'a, usize, E>)
    requires
        input@.wf(),
    ensures
        view_result(r) == spec_many1_count(f, input@),
{
    many1_count(f).parse(input)
}

} // verus!

//! `separated_list` and `separated_nonempty_list`: elements with
//! separators between them.

use vstd::prelude::*;
use crate::input::{Input, SpecInput, IResult, SpecResult, Parser, same_input, view_result, consumes};
use crate::error::{ErrMode, ErrorKind, ParseError};
use crate::multi::many::{lemma_progress, lemma_suffix_trans, lemma_suffix_refl};

verus! {

/// The loop after the first element, run from `s` with the elements `acc`
/// already collected.
///
/// Each round parses a separator, then an element.  An `Error` of either,
/// a separator that consumes nothing, or an element that ends where the
/// round began, ends the list before that round.  Their other failures are
/// passed on.
pub open spec fn spec_separated_loop<'a, E: ParseError<'a>, S: Parser<'a, E>, F: Parser<'a, E>>(
    sep: S,
    f: F,
    s: SpecInput,
    acc: Seq<<F::Output as DeepView>::V>,
) -> SpecResult<Seq<<F::Output as DeepView>::V>, E::V>
    decreases s.data.len(),
    via spec_separated_loop_decreases::<'a, E, S, F>
{
    match sep.spec_parse(s) {
        Err(ErrMode::Error(_)) => Ok((s, acc)),
        Err(e) => Err(e),
        Ok((r1, _)) => if r1 == s {
            Ok((s, acc))
        } else {
            match f.spec_parse(r1) {
                Err(ErrMode::Error(_)) => Ok((s, acc)),
                Err(e) => Err(e),
                Ok((r2, o)) => if r2 == s {
                    Ok((r2, acc))
                } else {
                    spec_separated_loop(sep, f, r2, acc.push(o))
                },
            }
        },
    }
}

/// A separator that consumed input followed by an element leaves less than
/// the round started with.
pub proof fn lemma_round_progress<'a, E: ParseError<'a>, S: Parser<'a, E>, F: Parser<'a, E>>(sep: S, f: F, s: SpecInput)
    ensures
        sep.spec_parse(s) matches Ok((r1, _)) ==> r1.is_suffix_of(s) && (r1 != s ==> (
        f.spec_parse(r1) matches Ok((r2, _)) ==> r2.is_suffix_of(s) && r2.data.len()
            < s.data.len())),
{
    lemma_progress(sep, s);
    if let Ok((r1, _)) = sep.spec_parse(s) {
        lemma_progress(f, r1);
        if let Ok((r2, _)) = f.spec_parse(r1) {
            lemma_suffix_trans(r2, r1, s);
        }
    }
}

#[via_fn]
proof fn spec_separated_loop_decreases<'a, E: ParseError<'a>, S: Parser<'a, E>, F: Parser<'a, E>>(
    sep: S,
    f: F,
    s: SpecInput,
    acc: Seq<<F::Output as DeepView>::V>,
) {
    lemma_round_progress(sep, f, s);
}

proof fn lemma_separated_loop_consumes<'a, E: ParseError<'a>, S: Parser<'a, E>, F: Parser<'a, E>>(
    sep: S,
    f: F,
    s: SpecInput,
    acc: Seq<<F::Output as DeepView>::V>,
)
    ensures
        consumes(s, spec_separated_loop(sep, f, s, acc)),
    decreases s.data.len(),
{
    lemma_round_progress(sep, f, s);
    lemma_suffix_refl(s);
    if let Ok((r1, _)) = sep.spec_parse(s) {
        if r1 != s {
            if let Ok((r2, o)) = f.spec_parse(r1) {
                if r2 != s {
                    lemma_separated_loop_consumes(sep, f, r2, acc.push(o));
                    if let Ok((t, _)) = spec_separated_loop(sep, f, r2, acc.push(o)) {
                        lemma_suffix_trans(t, r2, s);
                    }
                }
            }
        }
    }
}

/// Runs the loop after the first element from `start`, with `collected`
/// already collected.
fn separated_loop<'a, E: ParseError<'a>, S: Parser<'a, E>, F: Parser<'a, E>>(
    sep: &S,
    f: &F,
    start: Input<'a>,
    collected: Vec<F::Output>,
) -> (r: IResult<'a, Vec<F::Output>, E>)
    requires
        start@.wf(),
    ensures
        view_result(r) == spec_separated_loop(*sep, *f, start@, collected.deep_view()),
{
    let mut res = collected;
    let mut i = start;
    loop
        invariant
            i@.wf(),
            spec_separated_loop(*sep, *f, start@, collected.deep_view()) == spec_separated_loop(
                *sep,
                *f,
                i@,
                res.deep_view(),
            ),
        decreases i@.data.len(),
    {
        proof {
            lemma_round_progress(*sep, *f, i@);
        }
        match sep.parse(i) {
            Err(ErrMode::Error(_)) => {
                return Ok((i, res));
            },
            Err(e) => {
                return Err(e);
            },
            Ok((i1, _)) => {
                if same_input(&i1, &i) {
                    return Ok((i, res));
                }
                match f.parse(i1) {
                    Err(ErrMode::Error(_)) => {
                        return Ok((i, res));
                    },
                    Err(e) => {
                        return Err(e);
                    },
                    Ok((i2, o)) => {
                        if same_input(&i2, &i) {
                            return Ok((i2, res));
                        }
                        let ghost old_res = res.deep_view();
                        res.push(o);
                        i = i2;
                        assert(res.deep_view() =~= old_res.push(o.deep_view()));
                    },
                }
            },
        }
    }
}

/// What `separated_list(sep, f)` computes: an `Error` of the first element
/// gives the empty list; a first element that consumes nothing is an
/// `Error` of kind `SeparatedList`.
pub open spec fn spec_separated_list<'a, E: ParseError<'a>, S: Parser<'a, E>, F: Parser<'a, E>>(
    sep: S,
    f: F,
    s: SpecInput,
) -> SpecResult<Seq<<F::Output as DeepView>::V>, E::V> {
    match f.spec_parse(s) {
        Err(ErrMode::Error(_)) => Ok((s, Seq::empty())),
        Err(e) => Err(e),
        Ok((r, o)) => if r == s {
            Err(ErrMode::Error(E::spec_from_error_kind(r, ErrorKind::SeparatedList)))
        } else {
            spec_separated_loop(sep, f, r, seq![o])
        },
    }
}

/// What `separated_nonempty_list(sep, f)` computes: as `separated_list`,
/// but any failure of the first element is passed on.
pub open spec fn spec_separated_nonempty_list<'a, E: ParseError<'a>, S: Parser<'a, E>, F: Parser<'a, E>>(
    sep: S,
    f: F,
    s: SpecInput,
) -> SpecResult<Seq<<F::Output as DeepView>::V>, E::V> {
    match f.spec_parse(s) {
        Err(e) => Err(e),
        Ok((r, o)) => if r == s {
            Err(ErrMode::Error(E::spec_from_error_kind(r, ErrorKind::SeparatedList)))
        } else {
            spec_separated_loop(sep, f, r, seq![o])
        },
    }
}

proof fn lemma_first_then_loop_consumes<'a, E: ParseError<'a>, S: Parser<'a, E>, F: Parser<'a, E>>(
    sep: S,
    f: F,
    s: SpecInput,
)
    ensures
        f.spec_parse(s) matches Ok((r, o)) ==> consumes(
            s,
            spec_separated_loop(sep, f, r, seq![o]),
        ),
{
    lemma_progress(f, s);
    if let Ok((r, o)) = f.spec_parse(s) {
        lemma_separated_loop_consumes(sep, f, r, seq![o]);
        if let Ok((t, _)) = spec_separated_loop(sep, f, r, seq![o]) {
            lemma_suffix_trans(t, r, s);
        }
    }
}

/// Parses elements with separators between them.
pub struct SeparatedList<S, F> {
    pub sep: S,
    pub f: F,
}

/// Parses zero or more `f`, separated by `sep`.
pub fn separated_list<S, F>(sep: S, f: F) -> (r: SeparatedList<S, F>)
    ensures
        r.sep == sep,
        r.f == f,
{
    SeparatedList { sep, f }
}

/// Parses the first element, then hands over to the loop.
fn separated_first<'a, E: ParseError<'a>, S: Parser<'a, E>, F: Parser<'a, E>>(
    sep: &S,
    f: &F,
    input: Input<'a>,
    allow_empty: bool,
) -> (r: IResult<'a, Vec<F::Output>, E>)
    requires
        input@.wf(),
    ensures
        allow_empty ==> view_result(r) == spec_separated_list(*sep, *f, input@),
        !allow_empty ==> view_result(r) == spec_separated_nonempty_list(*sep, *f, input@),
{
    let mut res: Vec<F::Output> = Vec::new();
    proof {
        lemma_progress(*f, input@);
    }
    match f.parse(input) {
        Err(ErrMode::Error(e)) => {
            if allow_empty {
                assert(res.deep_view() =~= Seq::<<F::Output as DeepView>::V>::empty());
                Ok((input, res))
            } else {
                Err(ErrMode::Error(e))
            }
        },
        Err(e) => Err(e),
        Ok((i1, o)) => {
            if same_input(&i1, &input) {
                return Err(ErrMode::Error(E::from_error_kind(i1, ErrorKind::SeparatedList)));
            }
            res.push(o);
            assert(res.deep_view() =~= seq![o.deep_view()]);
            separated_loop(sep, f, i1, res)
        },
    }
}

impl<'a, E: ParseError<'a>, S: Parser<'a, E>, F: Parser<'a, E>> Parser<'a, E> for SeparatedList<S, F> {
    type Output = Vec<F::Output>;

    open spec fn spec_parse(&self, input: SpecInput) -> SpecResult<Seq<<F::Output as DeepView>::V>, E::V> {
        spec_separated_list(self.sep, self.f, input)
    }

    proof fn lemma_parse_consumes(&self, input: SpecInput) {
        lemma_suffix_refl(input);
        lemma_first_then_loop_consumes(self.sep, self.f, input);
    }

    fn parse(&self, input: Input<'a>) -> (r: IResult<'a, Vec<F::Output>, E>) {
        separated_first(&self.sep, &self.f, input, true)
    }
}

/// Runs `separated_list(sep, f)` on `input`.
pub fn separated_listc<'a, E: ParseError<'a>, S: Parser<'a, E>, F: Parser<'a, E>>(input: Input<'a>, sep: S, f: F) -> (r:
    IResult<'a, Vec<F::Output>, E>)
    requires
        input@.wf(),
    ensures
        view_result(r) == spec_separated_list(sep, f, input@),
{
    separated_list(sep, f).parse(input)
}

/// Parses one or more elements with separators between them.
pub struct SeparatedNonemptyList<S, F> {
    pub sep: S,
    pub f: F,
}

/// Parses one or more `f`, separated by `sep`.
pub fn separated_nonempty_list<S, F>(sep: S, f: F) -> (r: SeparatedNonemptyList<S, F>)
    ensures
        r.sep == sep,
        r.f == f,
{
    SeparatedNonemptyList { sep, f }
}

impl<'a, E: ParseError<'a>, S: Parser<'a, E>, F: Parser<'a, E>> Parser<'a, E> for SeparatedNonemptyList<S, F> {
    type Output = Vec<F::Output>;

    open spec fn spec_parse(&self, input: SpecInput) -> SpecResult<Seq<<F::Output as DeepView>::V>, E::V> {
        spec_separated_nonempty_list(self.sep, self.f, input)
    }

    proof fn lemma_parse_consumes(&self, input: SpecInput) {
        lemma_first_then_loop_consumes(self.sep, self.f, input);
    }

    fn parse(&self, input: Input<'a>) -> (r: IResult<'a, Vec<F::Output>, E>) {
        separated_first(&self.sep, &self.f, input, false)
    }
}

/// Runs `separated_nonempty_list(sep, f)` on `input`.
pub fn separated_nonempty_listc<'a, E: ParseError<'a>, S: Parser<'a, E>, F: Parser<'a, E>>(
    input: Input<'a>,
    sep: S,
    f: F,
) -> (r: IResult<'a, Vec<F::Output>, E>)
    requires
        input@.wf(),
    ensures
        view_result(r) == spec_separated_nonempty_list(sep, f, input@),
{
    separated_nonempty_list(sep, f).parse(input)
}

} // verus!

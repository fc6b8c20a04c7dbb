//! `many0`, `many1` and `many_till`: repeat a parser for as long as it
//! succeeds.

use vstd::prelude::*;
use crate::input::{Input, SpecInput, IResult, SpecResult, Parser, same_input, view_result, consumes};
use crate::error::{ErrMode, ErrorKind, ParseError};

verus! {

/// The repetition loop of `many0` and `many1`, run from `s` with the values
/// `acc` already collected.
///
/// An `Error` of the parser ends the repetition with what was collected; so
/// does `Incomplete` on an input that is complete.  `Failure`, and
/// `Incomplete` on a streaming input, are passed on.  A success that
/// consumes nothing would repeat forever, and is an `Error` of kind `kind`.
pub open spec fn spec_many_loop<'a, E: ParseError<'a>, P: Parser<'a, E>>(
    p: P,
    s: SpecInput,
    acc: Seq<<P::Output as DeepView>::V>,
    kind: ErrorKind,
) -> SpecResult<Seq<<P::Output as DeepView>::V>, E::V>
    decreases s.data.len(),
    via spec_many_loop_decreases::<'a, E, P>
{
    match p.spec_parse(s) {
        Err(ErrMode::Error(_)) => Ok((s, acc)),
        Err(ErrMode::Failure(e)) => Err(ErrMode::Failure(e)),
        Err(ErrMode::Incomplete(n)) => if s.eof {
            Ok((s, acc))
        } else {
            Err(ErrMode::Incomplete(n))
        },
        Ok((r, o)) => if r == s {
            Err(ErrMode::Error(E::spec_from_error_kind(s, kind)))
        } else {
            spec_many_loop(p, r, acc.push(o), kind)
        },
    }
}

/// A success that hands back something other than its input consumed at
/// least one byte.
pub proof fn lemma_progress<'a, E: ParseError<'a>, P: Parser<'a, E>>(p: P, s: SpecInput)
    ensures
        p.spec_parse(s) matches Ok((r, _)) ==> (r != s <==> r.data.len() < s.data.len()),
        p.spec_parse(s) matches Ok((r, _)) ==> r.is_suffix_of(s),
{
    p.lemma_parse_consumes(s);
    if let Ok((r, _)) = p.spec_parse(s) {
        if r.data.len() == s.data.len() {
            assert(r.data =~= s.data);
            assert(r =~= s);
        }
    }
}

#[via_fn]
proof fn spec_many_loop_decreases<'a, E: ParseError<'a>, P: Parser<'a, E>>(
    p: P,
    s: SpecInput,
    acc: Seq<<P::Output as DeepView>::V>,
    kind: ErrorKind,
) {
    lemma_progress(p, s);
}

/// Suffixes of suffixes are suffixes.
pub proof fn lemma_suffix_trans(a: SpecInput, b: SpecInput, c: SpecInput)
    requires
        a.is_suffix_of(b),
        b.is_suffix_of(c),
    ensures
        a.is_suffix_of(c),
{
    assert forall|j: int| 0 <= j < a.data.len() implies a.data[j] == c.data.skip(
        c.data.len() - a.data.len(),
    )[j] by {
        assert(a.data[j] == b.data.skip(b.data.len() - a.data.len())[j]);
        assert(b.data[b.data.len() - a.data.len() + j] == c.data.skip(c.data.len() - b.data.len())[b.data.len() - a.data.len() + j]);
    }
    assert(a.data =~= c.data.skip(c.data.len() - a.data.len()));
}

/// Every input is a suffix of itself.
pub proof fn lemma_suffix_refl(a: SpecInput)
    ensures
        a.is_suffix_of(a),
{
    assert(a.data =~= a.data.skip(0));
}

/// The repetition loop only ever hands back a suffix of where it started.
pub proof fn lemma_many_loop_consumes<'a, E: ParseError<'a>, P: Parser<'a, E>>(
    p: P,
    s: SpecInput,
    acc: Seq<<P::Output as DeepView>::V>,
    kind: ErrorKind,
)
    ensures
        consumes(s, spec_many_loop(p, s, acc, kind)),
    decreases s.data.len(),
{
    lemma_progress(p, s);
    lemma_suffix_refl(s);
    if let Ok((r, o)) = p.spec_parse(s) {
        if r != s {
            lemma_many_loop_consumes(p, r, acc.push(o), kind);
            if let Ok((t, _)) = spec_many_loop(p, r, acc.push(o), kind) {
                lemma_suffix_trans(t, r, s);
            }
        }
    }
}

/// Runs the repetition loop of `many0` and `many1` from `i`, with `acc`
/// already collected.
fn many_loop<'a, E: ParseError<'a>, P: Parser<'a, E>>(
    p: &P,
    start: Input<'a>,
    collected: Vec<P::Output>,
    kind: ErrorKind,
) -> (r: IResult<'a, Vec<P::Output>, E>)
    requires
        start@.wf(),
    ensures
        view_result(r) == spec_many_loop(*p, start@, collected.deep_view(), kind),
{
    let mut acc = collected;
    let mut i = start;
    loop
        invariant
            i@.wf(),
            spec_many_loop(*p, start@, collected.deep_view(), kind) == spec_many_loop(
                *p,
                i@,
                acc.deep_view(),
                kind,
            ),
        decreases i@.data.len(),
    {
        proof {
            lemma_progress(*p, i@);
        }
        match p.parse(i) {
            Err(ErrMode::Error(_)) => {
                return Ok((i, acc));
            },
            Err(ErrMode::Failure(e)) => {
                return Err(ErrMode::Failure(e));
            },
            Err(ErrMode::Incomplete(n)) => {
                if i.at_eof() {
                    return Ok((i, acc));
                } else {
                    return Err(ErrMode::Incomplete(n));
                }
            },
            Ok((i1, o)) => {
                if same_input(&i1, &i) {
                    return Err(ErrMode::Error(E::from_error_kind(i, kind)));
                }
                let ghost old_acc = acc.deep_view();
                i = i1;
                acc.push(o);
                assert(acc.deep_view() =~= old_acc.push(o.deep_view()));
            },
        }
    }
}

/// Repeats a parser zero or more times.
pub struct Many0<P> {
    pub parser: P,
}

/// Applies `f` as long as it succeeds and collects its values.
///
/// Stops at the first `Error` of `f`, or at an `Incomplete` of `f` on a
/// complete input, and returns what was collected.  A success of `f` that
/// consumes nothing is an `Error` of kind `Many0`.
pub fn many0<P>(f: P) -> (r: Many0<P>)
    ensures
        r.parser == f,
{
    Many0 { parser: f }
}

impl<'a, E: ParseError<'a>, P: Parser<'a, E>> Parser<'a, E> for Many0<P> {
    type Output = Vec<P::Output>;

    open spec fn spec_parse(&self, input: SpecInput) -> SpecResult<Seq<<P::Output as DeepView>::V>, E::V> {
        spec_many_loop(self.parser, input, Seq::empty(), ErrorKind::Many0)
    }

    proof fn lemma_parse_consumes(&self, input: SpecInput) {
        lemma_many_loop_consumes(self.parser, input, Seq::empty(), ErrorKind::Many0);
    }

    fn parse(&self, input: Input<'a>) -> (r: IResult<'a, Vec<P::Output>, E>) {
        let acc: Vec<P::Output> = Vec::with_capacity(4);
        assert(acc.deep_view() =~= Seq::<<P::Output as DeepView>::V>::empty());
        many_loop(&self.parser, input, acc, ErrorKind::Many0)
    }
}

/// Runs `many0(f)` on `input`.
pub fn many0c<'a, E: ParseError<'a>, P: Parser<'a, E>>(input: Input<'a>, f: P) -> (r: IResult<'a, Vec<P::Output>, E>)
    requires
        input@.wf(),
    ensures
        view_result(r) == (Many0 { parser: f }).spec_parse(input@),
{
    many0(f).parse(input)
}

/// What `many1(f)` computes: `f` must succeed once, then repeats as in
/// `many0`, with `Many1` as the kind of its errors.
pub open spec fn spec_many1<'a, E: ParseError<'a>, P: Parser<'a, E>>(p: P, s: SpecInput) -> SpecResult<
    Seq<<P::Output as DeepView>::V>, E::V> {
    match p.spec_parse(s) {
        Err(_) => Err(ErrMode::Error(E::spec_from_error_kind(s, ErrorKind::Many1))),
        Ok((r, o)) => spec_many_loop(p, r, seq![o], ErrorKind::Many1),
    }
}

/// Repeats a parser one or more times.
pub struct Many1<P> {
    pub parser: P,
}

/// Applies `f` once, then as long as it succeeds, and collects its values.
///
/// Any failure of the first application is an `Error` of kind `Many1`.
pub fn many1<P>(f: P) -> (r: Many1<P>)
    ensures
        r.parser == f,
{
    Many1 { parser: f }
}

impl<'a, E: ParseError<'a>, P: Parser<'a, E>> Parser<'a, E> for Many1<P> {
    type Output = Vec<P::Output>;

    open spec fn spec_parse(&self, input: SpecInput) -> SpecResult<Seq<<P::Output as DeepView>::V>, E::V> {
        spec_many1(self.parser, input)
    }

    proof fn lemma_parse_consumes(&self, input: SpecInput) {
        lemma_progress(self.parser, input);
        if let Ok((r, o)) = self.parser.spec_parse(input) {
            lemma_many_loop_consumes(self.parser, r, seq![o], ErrorKind::Many1);
            if let Ok((t, _)) = spec_many_loop(self.parser, r, seq![o], ErrorKind::Many1) {
                lemma_suffix_trans(t, r, input);
            }
        }
    }

    fn parse(&self, input: Input<'a>) -> (r: IResult<'a, Vec<P::Output>, E>) {
        proof {
            lemma_progress(self.parser, input@);
        }
        match self.parser.parse(input) {
            Err(_) => Err(ErrMode::Error(E::from_error_kind(input, ErrorKind::Many1))),
            Ok((i2, o)) => {
                let mut acc: Vec<P::Output> = Vec::with_capacity(4);
                acc.push(o);
                assert(acc.deep_view() =~= seq![o.deep_view()]);
                many_loop(&self.parser, i2, acc, ErrorKind::Many1)
            },
        }
    }
}

/// Runs `many1(f)` on `input`.
pub fn many1c<'a, E: ParseError<'a>, P: Parser<'a, E>>(input: Input<'a>, f: P) -> (r: IResult<'a, Vec<P::Output>, E>)
    requires
        input@.wf(),
    ensures
        view_result(r) == spec_many1(f, input@),
{
    many1(f).parse(input)
}

/// The loop of `many_till`, run from `s` with the values `acc` of `f`
/// already collected.
///
/// Each round first tries `g`: its success ends the loop.  Otherwise `f`
/// must succeed and consume input; an `Error` of `f` is passed on with the
/// context `ManyTill` appended, its other failures unchanged.
pub open spec fn spec_many_till_loop<'a, E: ParseError<'a>, F: Parser<'a, E>, G: Parser<'a, E>>(
    f: F,
    g: G,
    s: SpecInput,
    acc: Seq<<F::Output as DeepView>::V>,
) -> SpecResult<(Seq<<F::Output as DeepView>::V>, <G::Output as DeepView>::V), E::V>
    decreases s.data.len(),
    via spec_many_till_loop_decreases::<'a, E, F, G>
{
    match g.spec_parse(s) {
        Ok((r, o)) => Ok((r, (acc, o))),
        Err(_) => match f.spec_parse(s) {
            Err(ErrMode::Error(e)) => Err(
                ErrMode::Error(E::spec_append(s, ErrorKind::ManyTill, e)),
            ),
            Err(e) => Err(e),
            Ok((r, o)) => if r == s {
                Err(ErrMode::Error(E::spec_from_error_kind(s, ErrorKind::ManyTill)))
            } else {
                spec_many_till_loop(f, g, r, acc.push(o))
            },
        },
    }
}

#[via_fn]
proof fn spec_many_till_loop_decreases<'a, E: ParseError<'a>, F: Parser<'a, E>, G: Parser<'a, E>>(
    f: F,
    g: G,
    s: SpecInput,
    acc: Seq<<F::Output as DeepView>::V>,
) {
    lemma_progress(f, s);
}

proof fn lemma_many_till_loop_consumes<'a, E: ParseError<'a>, F: Parser<'a, E>, G: Parser<'a, E>>(
    f: F,
    g: G,
    s: SpecInput,
    acc: Seq<<F::Output as DeepView>::V>,
)
    ensures
        consumes(s, spec_many_till_loop(f, g, s, acc)),
    decreases s.data.len(),
{
    lemma_progress(f, s);
    lemma_progress(g, s);
    if let Err(_) = g.spec_parse(s) {
        if let Ok((r, o)) = f.spec_parse(s) {
            if r != s {
                lemma_many_till_loop_consumes(f, g, r, acc.push(o));
                if let Ok((t, _)) = spec_many_till_loop(f, g, r, acc.push(o)) {
                    lemma_suffix_trans(t, r, s);
                }
            }
        }
    }
}

/// Repeats one parser until another succeeds.
pub struct ManyTill<F, G> {
    pub f: F,
    pub g: G,
}

/// Applies `f` until `g` succeeds; returns the values of `f` and the value
/// of `g`.
pub fn many_till<F, G>(f: F, g: G) -> (r: ManyTill<F, G>)
    ensures
        r.f == f,
        r.g == g,
{
    ManyTill { f, g }
}

impl<'a, E: ParseError<'a>, F: Parser<'a, E>, G: Parser<'a, E>> Parser<'a, E> for ManyTill<F, G> {
    type Output = (Vec<F::Output>, G::Output);

    open spec fn spec_parse(&self, input: SpecInput) -> SpecResult<
        (Seq<<F::Output as DeepView>::V>, <G::Output as DeepView>::V), E::V> {
        spec_many_till_loop(self.f, self.g, input, Seq::empty())
    }

    proof fn lemma_parse_consumes(&self, input: SpecInput) {
        lemma_many_till_loop_consumes(self.f, self.g, input, Seq::empty());
    }

    fn parse(&self, input: Input<'a>) -> (r: IResult<'a, (Vec<F::Output>, G::Output), E>) {
        let mut res: Vec<F::Output> = Vec::new();
        let mut i = input;
        assert(res.deep_view() =~= Seq::<<F::Output as DeepView>::V>::empty());
        loop
            invariant
                i@.wf(),
                spec_many_till_loop(self.f, self.g, input@, Seq::empty()) == spec_many_till_loop(
                    self.f,
                    self.g,
                    i@,
                    res.deep_view(),
                ),
            decreases i@.data.len(),
        {
            proof {
                lemma_progress(self.f, i@);
            }
            match self.g.parse(i) {
                Ok((rest, o)) => {
                    return Ok((rest, (res, o)));
                },
                Err(_) => {
                    match self.f.parse(i) {
                        Err(ErrMode::Error(err)) => {
                            return Err(ErrMode::Error(E::append(i, ErrorKind::ManyTill, err)));
                        },
                        Err(e) => {
                            return Err(e);
                        },
                        Ok((i1, o)) => {
                            if same_input(&i1, &i) {
                                return Err(ErrMode::Error(E::from_error_kind(i, ErrorKind::ManyTill)));
                            }
                            let ghost old_res = res.deep_view();
                            res.push(o);
                            i = i1;
                            assert(res.deep_view() =~= old_res.push(o.deep_view()));
                        },
                    }
                },
            }
        }
    }
}

/// Runs `many_till(f, g)` on `input`.
pub fn many_tillc<'a, E: ParseError<'a>, F: Parser<'a, E>, G: Parser<'a, E>>(input: Input<'a>, f: F, g: G) -> (r: IResult<
    'a,
    (Vec<F::Output>, G::Output), E>)
    requires
        input@.wf(),
    ensures
        view_result(r) == spec_many_till_loop(f, g, input@, Seq::empty()),
{
    many_till(f, g).parse(input)
}

} // verus!

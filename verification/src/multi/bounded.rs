//! `many_m_n` and `count`: repetitions with bounds on how often.

use vstd::prelude::*;
use crate::input::{Input, SpecInput, IResult, SpecResult, Parser, spec_need_more, need_more, same_input, view_result, consumes};
use crate::error::{ErrMode, ErrorKind, Needed, ParseError};
use crate::multi::many::{lemma_progress, lemma_suffix_trans, lemma_suffix_refl};

verus! {

/// Why the loop of `many_m_n` stopped.
pub enum LoopEnd<E> {
    /// It reached the upper bound, or the parser consumed nothing.
    Clean,
    /// The parser returned an `Error`.
    Error,
    /// The parser asked for more input.
    Incomplete(Needed),
    /// The parser returned a `Failure`.
    Failure(E),
}

pub open spec fn view_loop_end<E: View>(e: LoopEnd<E>) -> LoopEnd<E::V> {
    match e {
        LoopEnd::Clean => LoopEnd::Clean,
        LoopEnd::Error => LoopEnd::Error,
        LoopEnd::Incomplete(n) => LoopEnd::Incomplete(n),
        LoopEnd::Failure(e) => LoopEnd::Failure(e@),
    }
}

/// The loop of `many_m_n`, run from `s` with `acc` collected: at most `n`
/// values in all, stopping early at the first failure or at a success that
/// consumes nothing.  Returns where it stopped, what it collected and why.
pub open spec fn spec_m_n_loop<'a, E: ParseError<'a>, P: Parser<'a, E>>(
    p: P,
    s: SpecInput,
    acc: Seq<<P::Output as DeepView>::V>,
    n: nat,
) -> (SpecInput, Seq<<P::Output as DeepView>::V>, LoopEnd<E::V>)
    decreases n - acc.len(),
{
    if acc.len() >= n {
        (s, acc, LoopEnd::Clean)
    } else {
        match p.spec_parse(s) {
            Ok((r, o)) => if r == s {
                (s, acc, LoopEnd::Clean)
            } else {
                spec_m_n_loop(p, r, acc.push(o), n)
            },
            Err(ErrMode::Error(_)) => (s, acc, LoopEnd::Error),
            Err(ErrMode::Incomplete(x)) => (s, acc, LoopEnd::Incomplete(x)),
            Err(ErrMode::Failure(e)) => (s, acc, LoopEnd::Failure(e)),
        }
    }
}

/// What `many_m_n(m, n, f)` computes from where its loop stopped.
///
/// Fewer than `m` values: the `Error` of `f` becomes an `Error` of kind
/// `ManyMN` at the start; a `Failure` is passed on; otherwise more input is
/// needed.  At least `m` values: they are the result, unless `f` failed or
/// asked for more input.
pub open spec fn spec_many_m_n<'a, E: ParseError<'a>, P: Parser<'a, E>>(p: P, m: usize, n: usize, s: SpecInput) -> SpecResult<
    Seq<<P::Output as DeepView>::V>, E::V> {
    let (rest, acc, end) = spec_m_n_loop(p, s, Seq::empty(), n as nat);
    if acc.len() < m {
        match end {
            LoopEnd::Error => Err(ErrMode::Error(E::spec_from_error_kind(s, ErrorKind::ManyMN))),
            LoopEnd::Failure(e) => Err(ErrMode::Failure(e)),
            LoopEnd::Incomplete(x) => spec_need_more::<_, E>(s, x),
            LoopEnd::Clean => spec_need_more::<_, E>(s, Needed::Unknown),
        }
    } else {
        match end {
            LoopEnd::Failure(e) => Err(ErrMode::Failure(e)),
            LoopEnd::Incomplete(x) => spec_need_more::<_, E>(s, x),
            _ => Ok((rest, acc)),
        }
    }
}

/// The loop of `many_m_n` stops at a suffix of its start, having collected
/// at most `n` values, and keeps what was collected before.
pub proof fn lemma_m_n_loop<'a, E: ParseError<'a>, P: Parser<'a, E>>(
    p: P,
    s: SpecInput,
    acc: Seq<<P::Output as DeepView>::V>,
    n: nat,
)
    requires
        acc.len() <= n,
    ensures
        ({
            let (rest, out, _) = spec_m_n_loop(p, s, acc, n);
            &&& rest.is_suffix_of(s)
            &&& acc.len() <= out.len() <= n
            &&& out.subrange(0, acc.len() as int) == acc
        }),
    decreases n - acc.len(),
{
    lemma_suffix_refl(s);
    lemma_progress(p, s);
    if acc.len() < n {
        if let Ok((r, o)) = p.spec_parse(s) {
            if r != s {
                lemma_m_n_loop(p, r, acc.push(o), n);
                let (rest, out, _) = spec_m_n_loop(p, r, acc.push(o), n);
                lemma_suffix_trans(rest, r, s);
                assert(out.subrange(0, acc.len() as int) =~= out.subrange(
                    0,
                    (acc.len() + 1) as int,
                ).subrange(0, acc.len() as int));
            }
        }
    }
    let (rest, out, _) = spec_m_n_loop(p, s, acc, n);
    assert(out.subrange(0, acc.len() as int) =~= acc);
}

/// Runs the loop of `many_m_n` from `start` with `collected` collected.
fn m_n_loop<'a, E: ParseError<'a>, P: Parser<'a, E>>(p: &P, start: Input<'a>, collected: Vec<P::Output>, n: usize) -> (r: (
    Input<'a>,
    Vec<P::Output>,
    LoopEnd<E>,
))
    requires
        start@.wf(),
        collected.len() <= n,
    ensures
        spec_m_n_loop(*p, start@, collected.deep_view(), n as nat) == (
            r.0@,
            r.1.deep_view(),
            view_loop_end(r.2),
        ),
{
    let mut res = collected;
    let mut input = start;
    let mut count: usize = res.len();
    loop
        invariant
            input@.wf(),
            count == res.len(),
            count <= n,
            spec_m_n_loop(*p, start@, collected.deep_view(), n as nat) == spec_m_n_loop(
                *p,
                input@,
                res.deep_view(),
                n as nat,
            ),
        decreases n - count,
    {
        if count == n {
            return (input, res, LoopEnd::Clean);
        }
        proof {
            lemma_progress(*p, input@);
        }
        match p.parse(input) {
            Ok((i, o)) => {
                if same_input(&i, &input) {
                    return (input, res, LoopEnd::Clean);
                }
                let ghost old_res = res.deep_view();
                res.push(o);
                input = i;
                count = count + 1;
                assert(res.deep_view() =~= old_res.push(o.deep_view()));
            },
            Err(ErrMode::Error(_)) => {
                return (input, res, LoopEnd::Error);
            },
            Err(ErrMode::Incomplete(x)) => {
                return (input, res, LoopEnd::Incomplete(x));
            },
            Err(ErrMode::Failure(e)) => {
                return (input, res, LoopEnd::Failure(e));
            },
        }
    }
}

/// Repeats a parser between `m` and `n` times.
pub struct ManyMN<P> {
    pub m: usize,
    pub n: usize,
    pub parser: P,
}

/// Applies `f` at most `n` times, and fails unless it succeeded at least `m`
/// times.
pub fn many_m_n<P>(m: usize, n: usize, f: P) -> (r: ManyMN<P>)
    ensures
        r.m == m,
        r.n == n,
        r.parser == f,
{
    ManyMN { m, n, parser: f }
}

impl<'a, E: ParseError<'a>, P: Parser<'a, E>> Parser<'a, E> for ManyMN<P> {
    type Output = Vec<P::Output>;

    open spec fn spec_parse(&self, input: SpecInput) -> SpecResult<Seq<<P::Output as DeepView>::V>, E::V> {
        spec_many_m_n(self.parser, self.m, self.n, input)
    }

    proof fn lemma_parse_consumes(&self, input: SpecInput) {
        lemma_m_n_loop(self.parser, input, Seq::empty(), self.n as nat);
    }

    fn parse(&self, i: Input<'a>) -> (r: IResult<'a, Vec<P::Output>, E>) {
        let res: Vec<P::Output> = Vec::new();
        assert(res.deep_view() =~= Seq::<<P::Output as DeepView>::V>::empty());
        let (input, res, end) = m_n_loop(&self.parser, i, res, self.n);
        if res.len() < self.m {
            match end {
                LoopEnd::Error => Err(ErrMode::Error(E::from_error_kind(i, ErrorKind::ManyMN))),
                LoopEnd::Failure(e) => Err(ErrMode::Failure(e)),
                LoopEnd::Incomplete(x) => need_more(i, x),
                LoopEnd::Clean => need_more(i, Needed::Unknown),
            }
        } else {
            match end {
                LoopEnd::Failure(e) => Err(ErrMode::Failure(e)),
                LoopEnd::Incomplete(x) => need_more(i, x),
                _ => Ok((input, res)),
            }
        }
    }
}

/// Runs `many_m_n(m, n, f)` on `input`.
pub fn many_m_nc<'a, E: ParseError<'a>, P: Parser<'a, E>>(input: Input<'a>, m: usize, n: usize, f: P) -> (r: IResult<
    'a,
    Vec<P::Output>, E>)
    requires
        input@.wf(),
    ensures
        view_result(r) == spec_many_m_n(f, m, n, input@),
{
    many_m_n(m, n, f).parse(input)
}

/// The loop of `count`, with `k` applications left, run from `s` with
/// `acc` collected; `s0` is where the whole repetition started.
///
/// An `Error` of the parser becomes an `Error` of kind `Count` at `s0`;
/// its other failures are passed on.
pub open spec fn spec_count_loop<'a, E: ParseError<'a>, P: Parser<'a, E>>(
    p: P,
    s0: SpecInput,
    s: SpecInput,
    acc: Seq<<P::Output as DeepView>::V>,
    k: nat,
) -> SpecResult<Seq<<P::Output as DeepView>::V>, E::V>
    decreases k,
{
    if k == 0 {
        Ok((s, acc))
    } else {
        match p.spec_parse(s) {
            Ok((r, o)) => spec_count_loop(p, s0, r, acc.push(o), (k - 1) as nat),
            Err(ErrMode::Error(_)) => Err(ErrMode::Error(E::spec_from_error_kind(s0, ErrorKind::Count))),
            Err(e) => Err(e),
        }
    }
}

/// What `count(f, n)` computes.
pub open spec fn spec_count<'a, E: ParseError<'a>, P: Parser<'a, E>>(p: P, n: usize, s: SpecInput) -> SpecResult<
    Seq<<P::Output as DeepView>::V>, E::V> {
    spec_count_loop(p, s, s, Seq::empty(), n as nat)
}

/// The loop of `count` stops at a suffix of where it is run from, having
/// collected exactly `k` more values.
pub proof fn lemma_count_loop<'a, E: ParseError<'a>, P: Parser<'a, E>>(
    p: P,
    s0: SpecInput,
    s: SpecInput,
    acc: Seq<<P::Output as DeepView>::V>,
    k: nat,
)
    ensures
        spec_count_loop(p, s0, s, acc, k) matches Ok((rest, out)) ==> {
            &&& rest.is_suffix_of(s)
            &&& out.len() == acc.len() + k
            &&& out.subrange(0, acc.len() as int) == acc
        },
    decreases k,
{
    lemma_suffix_refl(s);
    if k == 0 {
        assert(acc.subrange(0, acc.len() as int) =~= acc);
    } else {
        lemma_progress(p, s);
        if let Ok((r, o)) = p.spec_parse(s) {
            lemma_count_loop(p, s0, r, acc.push(o), (k - 1) as nat);
            if let Ok((rest, out)) = spec_count_loop(p, s0, r, acc.push(o), (k - 1) as nat) {
                lemma_suffix_trans(rest, r, s);
                assert(out.subrange(0, acc.len() as int) =~= out.subrange(
                    0,
                    (acc.len() + 1) as int,
                ).subrange(0, acc.len() as int));
            }
        }
    }
}

/// Repeats a parser a fixed number of times.
pub struct Count<P> {
    pub parser: P,
    pub count: usize,
}

/// Applies `f` exactly `times` times.
pub fn count<P>(f: P, times: usize) -> (r: Count<P>)
    ensures
        r.parser == f,
        r.count == times,
{
    Count { parser: f, count: times }
}

impl<'a, E: ParseError<'a>, P: Parser<'a, E>> Parser<'a, E> for Count<P> {
    type Output = Vec<P::Output>;

    open spec fn spec_parse(&self, input: SpecInput) -> SpecResult<Seq<<P::Output as DeepView>::V>, E::V> {
        spec_count(self.parser, self.count, input)
    }

    proof fn lemma_parse_consumes(&self, input: SpecInput) {
        lemma_count_loop(self.parser, input, input, Seq::empty(), self.count as nat);
    }

    fn parse(&self, i: Input<'a>) -> (r: IResult<'a, Vec<P::Output>, E>) {
        let mut input = i;
        let mut res: Vec<P::Output> = Vec::new();
        let mut done: usize = 0;
        assert(res.deep_view() =~= Seq::<<P::Output as DeepView>::V>::empty());
        while done < self.count
            invariant
                done <= self.count,
                input@.wf(),
                spec_count(self.parser, self.count, i@) == spec_count_loop(
                    self.parser,
                    i@,
                    input@,
                    res.deep_view(),
                    (self.count - done) as nat,
                ),
            decreases self.count - done,
        {
            proof {
                lemma_progress(self.parser, input@);
            }
            match self.parser.parse(input) {
                Ok((rest, o)) => {
                    let ghost old_res = res.deep_view();
                    res.push(o);
                    input = rest;
                    assert(res.deep_view() =~= old_res.push(o.deep_view()));
                },
                Err(ErrMode::Error(_)) => {
                    return Err(ErrMode::Error(E::from_error_kind(i, ErrorKind::Count)));
                },
                Err(e) => {
                    return Err(e);
                },
            }
            done = done + 1;
        }
        Ok((input, res))
    }
}

} // verus!

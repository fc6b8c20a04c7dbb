//! `fold_many0`, `fold_many1` and `fold_many_m_n`: repeat a parser and
//! combine its values into an accumulator.

use vstd::prelude::*;
use crate::input::{Input, SpecInput, IResult, SpecResult, Parser, spec_need_more, need_more, same_input, view_result, consumes};
use crate::error::{ErrMode, ErrorKind, Needed, ParseError};
use crate::multi::many::{lemma_progress, lemma_suffix_trans, lemma_suffix_refl};

verus! {

/// A function that combines an accumulator with a parsed value.
///
/// `spec_accumulate` is what it computes, on the deep views of its
/// arguments; `accumulate` computes it.
pub trait Accumulate<R: DeepView, O: DeepView> {
    spec fn spec_accumulate(&self, acc: R::V, item: O::V) -> R::V;

    fn accumulate(&self, acc: R, item: O) -> (r: R)
        ensures
            r.deep_view() == self.spec_accumulate(acc.deep_view(), item.deep_view()),
    ;
}

/// Appends each value to a vector.
pub struct Push;

impl<O: DeepView> Accumulate<Vec<O>, O> for Push {
    open spec fn spec_accumulate(&self, acc: Seq<O::V>, item: O::V) -> Seq<O::V> {
        acc.push(item)
    }

    fn accumulate(&self, acc: Vec<O>, item: O) -> (r: Vec<O>) {
        let mut acc = acc;
        let ghost old_acc = acc.deep_view();
        acc.push(item);
        assert(acc.deep_view() =~= old_acc.push(item.deep_view()));
        acc
    }
}

/// Cloning a value of type `R` keeps its deep view.
pub open spec fn clone_keeps_view<R: Clone + DeepView>() -> bool {
    forall|a: R, b: R| #[trigger] cloned(a, b) ==> a.deep_view() == b.deep_view()
}

/// Cloning a number keeps it.
pub proof fn lemma_clone_keeps_view_usize()
    ensures
        clone_keeps_view::<usize>(),
{
}

/// Cloning a number of any other integer type, a `bool`, a `char` or a
/// `String` keeps it.
pub proof fn lemma_clone_keeps_view_primitives()
    ensures
        clone_keeps_view::<u8>(),
        clone_keeps_view::<u16>(),
        clone_keeps_view::<u32>(),
        clone_keeps_view::<u64>(),
        clone_keeps_view::<u128>(),
        clone_keeps_view::<i8>(),
        clone_keeps_view::<i16>(),
        clone_keeps_view::<i32>(),
        clone_keeps_view::<i64>(),
        clone_keeps_view::<i128>(),
        clone_keeps_view::<isize>(),
        clone_keeps_view::<bool>(),
        clone_keeps_view::<char>(),
        clone_keeps_view::<String>(),
{
}

/// Cloning a reference keeps what it refers to.
pub proof fn lemma_clone_keeps_view_ref<'b, T: DeepView + ?Sized>()
    ensures
        clone_keeps_view::<&'b T>(),
{
}

/// Vectors whose elements keep their deep view when cloned keep theirs.
pub proof fn lemma_clone_keeps_view_vec<T: Clone + DeepView>()
    requires
        clone_keeps_view::<T>(),
    ensures
        clone_keeps_view::<Vec<T>>(),
{
    assert forall|a: Vec<T>, b: Vec<T>| #[trigger] cloned(a, b) implies a.deep_view()
        == b.deep_view() by {
        if a != b {
            assert(b.len() == a.len());
            assert forall|i: int| 0 <= i < a.len() implies a.deep_view()[i] == b.deep_view()[i] by {
                assert(cloned::<T>(a[i], b[i]));
            }
            assert(a.deep_view() =~= b.deep_view());
        }
    }
}

/// A fresh copy of the initial accumulator.
fn clone_init<R: Clone + DeepView>(init: &R) -> (r: R)
    requires
        clone_keeps_view::<R>(),
    ensures
        r.deep_view() == init.deep_view(),
{
    let r = init.clone();
    assert(cloned(*init, r));
    r
}

/// The loop of `fold_many0` from `s`, with accumulator `acc`.
///
/// An `Error` of the parser ends it with the accumulator.  A success that
/// consumes nothing ends it with the accumulator on a complete input, and
/// is an `Error` of kind `Many0` on a streaming one.  Other failures are
/// passed on.
pub open spec fn spec_fold_many0_loop<'a, E: ParseError<'a>, P: Parser<'a, E>, R: DeepView, G: Accumulate<R, P::Output>>(
    p: P,
    g: G,
    s: SpecInput,
    acc: R::V,
) -> SpecResult<R::V, E::V>
    decreases s.data.len(),
    via spec_fold_many0_loop_decreases::<'a, E, P, R, G>
{
    match p.spec_parse(s) {
        Ok((r, o)) => if r == s {
            if r.eof {
                Ok((s, acc))
            } else {
                Err(ErrMode::Error(E::spec_from_error_kind(s, ErrorKind::Many0)))
            }
        } else {
            spec_fold_many0_loop(p, g, r, g.spec_accumulate(acc, o))
        },
        Err(ErrMode::Error(_)) => Ok((s, acc)),
        Err(e) => Err(e),
    }
}

#[via_fn]
proof fn spec_fold_many0_loop_decreases<'a, E: ParseError<'a>, P: Parser<'a, E>, R: DeepView, G: Accumulate<R, P::Output>>(
    p: P,
    g: G,
    s: SpecInput,
    acc: R::V,
) {
    lemma_progress(p, s);
}

proof fn lemma_fold_many0_loop_consumes<'a, E: ParseError<'a>, P: Parser<'a, E>, R: DeepView, G: Accumulate<R, P::Output>>(
    p: P,
    g: G,
    s: SpecInput,
    acc: R::V,
)
    ensures
        consumes(s, spec_fold_many0_loop(p, g, s, acc)),
    decreases s.data.len(),
{
    lemma_progress(p, s);
    lemma_suffix_refl(s);
    if let Ok((r, o)) = p.spec_parse(s) {
        if r != s {
            lemma_fold_many0_loop_consumes(p, g, r, g.spec_accumulate(acc, o));
            if let Ok((t, _)) = spec_fold_many0_loop(p, g, r, g.spec_accumulate(acc, o)) {
                lemma_suffix_trans(t, r, s);
            }
        }
    }
}

/// Folds the values of a parser applied zero or more times.
pub struct FoldMany0<P, R: Clone + DeepView, G> {
    parser: P,
    init: R,
    g: G,
}

impl<P, R: Clone + DeepView, G> FoldMany0<P, R, G> {
    #[verifier::type_invariant]
    spec fn clone_ok(self) -> bool {
        clone_keeps_view::<R>()
    }

    pub closed spec fn parser(self) -> P {
        self.parser
    }

    pub closed spec fn init(self) -> R {
        self.init
    }

    pub closed spec fn g(self) -> G {
        self.g
    }
}

/// Applies `f` as long as it succeeds, combining its values with `g`,
/// starting from a copy of `init`.
pub fn fold_many0<P, R: Clone + DeepView, G>(f: P, init: R, g: G) -> (r: FoldMany0<P, R, G>)
    requires
        clone_keeps_view::<R>(),
    ensures
        r.parser() == f,
        r.init() == init,
        r.g() == g,
{
    FoldMany0 { parser: f, init, g }
}

/// What `fold_many0(f, init, g)` computes.
pub open spec fn spec_fold_many0<'a, E: ParseError<'a>, P: Parser<'a, E>, R: DeepView, G: Accumulate<R, P::Output>>(
    p: P,
    init: R,
    g: G,
    s: SpecInput,
) -> SpecResult<R::V, E::V> {
    spec_fold_many0_loop(p, g, s, init.deep_view())
}

impl<'a, E: ParseError<'a>, P: Parser<'a, E>, R: Clone + DeepView, G: Accumulate<R, P::Output>> Parser<'a, E> for FoldMany0<
    P,
    R,
    G,
> {
    type Output = R;

    open spec fn spec_parse(&self, input: SpecInput) -> SpecResult<R::V, E::V> {
        spec_fold_many0(self.parser(), self.init(), self.g(), input)
    }

    proof fn lemma_parse_consumes(&self, input: SpecInput) {
        lemma_fold_many0_loop_consumes(self.parser(), self.g(), input, self.init().deep_view());
    }

    fn parse(&self, i: Input<'a>) -> (r: IResult<'a, R, E>) {
        proof {
            use_type_invariant(self);
        }
        let mut res = clone_init(&self.init);
        let mut input = i;
        loop
            invariant
                input@.wf(),
                spec_fold_many0(self.parser(), self.init(), self.g(), i@) == spec_fold_many0_loop(
                    self.parser(),
                    self.g(),
                    input@,
                    res.deep_view(),
                ),
            decreases input@.data.len(),
        {
            proof {
                lemma_progress(self.parser, input@);
            }
            match self.parser.parse(input) {
                Ok((rest, o)) => {
                    if same_input(&rest, &input) {
                        return if rest.at_eof() {
                            Ok((input, res))
                        } else {
                            Err(ErrMode::Error(E::from_error_kind(input, ErrorKind::Many0)))
                        };
                    }
                    res = self.g.accumulate(res, o);
                    input = rest;
                },
                Err(ErrMode::Error(_)) => {
                    return Ok((input, res));
                },
                Err(e) => {
                    return Err(e);
                },
            }
        }
    }
}

/// The loop of `fold_many1` after its first success, from `s`, with
/// accumulator `acc`; `s0` is where the whole repetition started.
///
/// An `Error` ends it with the accumulator; `Incomplete` asks for more
/// input at `s0`; a `Failure` is passed on.  A success that consumes
/// nothing ends it on a complete input, and is a `Failure` of kind `Many1`
/// on a streaming one.
pub open spec fn spec_fold_many1_loop<'a, E: ParseError<'a>, P: Parser<'a, E>, R: DeepView, G: Accumulate<R, P::Output>>(
    p: P,
    g: G,
    s0: SpecInput,
    s: SpecInput,
    acc: R::V,
) -> SpecResult<R::V, E::V>
    decreases s.data.len(),
    via spec_fold_many1_loop_decreases::<'a, E, P, R, G>
{
    match p.spec_parse(s) {
        Err(ErrMode::Error(_)) => Ok((s, acc)),
        Err(ErrMode::Incomplete(x)) => spec_need_more::<_, E>(s0, x),
        Err(ErrMode::Failure(e)) => Err(ErrMode::Failure(e)),
        Ok((r, o)) => if r == s {
            if !r.eof {
                Err(ErrMode::Failure(E::spec_from_error_kind(r, ErrorKind::Many1)))
            } else {
                Ok((s, acc))
            }
        } else {
            spec_fold_many1_loop(p, g, s0, r, g.spec_accumulate(acc, o))
        },
    }
}

#[via_fn]
proof fn spec_fold_many1_loop_decreases<'a, E: ParseError<'a>, P: Parser<'a, E>, R: DeepView, G: Accumulate<R, P::Output>>(
    p: P,
    g: G,
    s0: SpecInput,
    s: SpecInput,
    acc: R::V,
) {
    lemma_progress(p, s);
}

proof fn lemma_fold_many1_loop_consumes<'a, E: ParseError<'a>, P: Parser<'a, E>, R: DeepView, G: Accumulate<R, P::Output>>(
    p: P,
    g: G,
    s0: SpecInput,
    s: SpecInput,
    acc: R::V,
)
    ensures
        consumes(s, spec_fold_many1_loop(p, g, s0, s, acc)),
    decreases s.data.len(),
{
    lemma_progress(p, s);
    lemma_suffix_refl(s);
    if let Ok((r, o)) = p.spec_parse(s) {
        if r != s {
            lemma_fold_many1_loop_consumes(p, g, s0, r, g.spec_accumulate(acc, o));
            if let Ok((t, _)) = spec_fold_many1_loop(p, g, s0, r, g.spec_accumulate(acc, o)) {
                lemma_suffix_trans(t, r, s);
            }
        }
    }
}

/// What `fold_many1(f, init, g)` computes: an `Error` or a `Failure` of the
/// first application becomes one of kind `Many1` at the start.
pub open spec fn spec_fold_many1<'a, E: ParseError<'a>, P: Parser<'a, E>, R: DeepView, G: Accumulate<R, P::Output>>(
    p: P,
    init: R,
    g: G,
    s: SpecInput,
) -> SpecResult<R::V, E::V> {
    match p.spec_parse(s) {
        Err(ErrMode::Error(_)) => Err(ErrMode::Error(E::spec_from_error_kind(s, ErrorKind::Many1))),
        Err(ErrMode::Failure(_)) => Err(ErrMode::Failure(E::spec_from_error_kind(s, ErrorKind::Many1))),
        Err(ErrMode::Incomplete(n)) => Err(ErrMode::Incomplete(n)),
        Ok((r, o)) => spec_fold_many1_loop(p, g, s, r, g.spec_accumulate(init.deep_view(), o)),
    }
}

/// Folds the values of a parser applied one or more times.
pub struct FoldMany1<P, R: Clone + DeepView, G> {
    parser: P,
    init: R,
    g: G,
}

impl<P, R: Clone + DeepView, G> FoldMany1<P, R, G> {
    #[verifier::type_invariant]
    spec fn clone_ok(self) -> bool {
        clone_keeps_view::<R>()
    }

    pub closed spec fn parser(self) -> P {
        self.parser
    }

    pub closed spec fn init(self) -> R {
        self.init
    }

    pub closed spec fn g(self) -> G {
        self.g
    }
}

/// Applies `f` once, then as long as it succeeds, combining its values with
/// `g`, starting from a copy of `init`.
pub fn fold_many1<P, R: Clone + DeepView, G>(f: P, init: R, g: G) -> (r: FoldMany1<P, R, G>)
    requires
        clone_keeps_view::<R>(),
    ensures
        r.parser() == f,
        r.init() == init,
        r.g() == g,
{
    FoldMany1 { parser: f, init, g }
}

impl<'a, E: ParseError<'a>, P: Parser<'a, E>, R: Clone + DeepView, G: Accumulate<R, P::Output>> Parser<'a, E> for FoldMany1<
    P,
    R,
    G,
> {
    type Output = R;

    open spec fn spec_parse(&self, input: SpecInput) -> SpecResult<R::V, E::V> {
        spec_fold_many1(self.parser(), self.init(), self.g(), input)
    }

    proof fn lemma_parse_consumes(&self, input: SpecInput) {
        lemma_progress(self.parser(), input);
        if let Ok((r, o)) = self.parser().spec_parse(input) {
            let acc = self.g().spec_accumulate(self.init().deep_view(), o);
            lemma_fold_many1_loop_consumes(self.parser(), self.g(), input, r, acc);
            if let Ok((t, _)) = spec_fold_many1_loop(self.parser(), self.g(), input, r, acc) {
                lemma_suffix_trans(t, r, input);
            }
        }
    }

    fn parse(&self, i: Input<'a>) -> (r: IResult<'a, R, E>) {
        proof {
            use_type_invariant(self);
            lemma_progress(self.parser, i@);
        }
        match self.parser.parse(i) {
            Err(ErrMode::Error(_)) => Err(ErrMode::Error(E::from_error_kind(i, ErrorKind::Many1))),
            Err(ErrMode::Failure(_)) => Err(ErrMode::Failure(E::from_error_kind(i, ErrorKind::Many1))),
            Err(ErrMode::Incomplete(n)) => Err(ErrMode::Incomplete(n)),
            Ok((i1, o1)) => {
                let mut acc = self.g.accumulate(clone_init(&self.init), o1);
                let mut input = i1;
                loop
                    invariant
                        input@.wf(),
                        spec_fold_many1(self.parser(), self.init(), self.g(), i@)
                            == spec_fold_many1_loop(
                            self.parser(),
                            self.g(),
                            i@,
                            input@,
                            acc.deep_view(),
                        ),
                    ensures
                        spec_fold_many1(self.parser(), self.init(), self.g(), i@) == Ok::<
                            (SpecInput, R::V),
                            ErrMode<E::V>,
                        >((input@, acc.deep_view())),
                    decreases input@.data.len(),
                {
                    proof {
                        lemma_progress(self.parser, input@);
                    }
                    match self.parser.parse(input) {
                        Err(ErrMode::Error(_)) => {
                            break ;
                        },
                        Err(ErrMode::Incomplete(i2)) => {
                            return need_more(i, i2);
                        },
                        Err(ErrMode::Failure(e)) => {
                            return Err(ErrMode::Failure(e));
                        },
                        Ok((rest, o)) => {
                            if same_input(&rest, &input) {
                                if !rest.at_eof() {
                                    return Err(ErrMode::Failure(E::from_error_kind(rest, ErrorKind::Many1)));
                                }
                                break ;
                            }
                            acc = self.g.accumulate(acc, o);
                            input = rest;
                        },
                    }
                }
                Ok((input, acc))
            },
        }
    }
}

/// Runs `fold_many1(f, init, g)` on `input`.
pub fn fold_many1c<'a, E: ParseError<'a>, P: Parser<'a, E>, R: Clone + DeepView, G: Accumulate<R, P::Output>>(
    input: Input<'a>,
    f: P,
    init: R,
    g: G,
) -> (r: IResult<'a, R, E>)
    requires
        input@.wf(),
        clone_keeps_view::<R>(),
    ensures
        view_result(r) == spec_fold_many1(f, init, g, input@),
{
    fold_many1(f, init, g).parse(input)
}

/// The loop of `fold_many_m_n` from `s`, after `count` values, with
/// accumulator `acc`; `s0` is where the whole repetition started.
///
/// It stops after `n` values.  Before `m` values, a success that consumes
/// nothing asks for more input and an `Error` or `Failure` becomes an
/// `Error` of kind `ManyMN` at `s0`; from `m` values on, both end the loop
/// with the accumulator.  `Incomplete` is passed on.
pub open spec fn spec_fold_m_n_loop<'a, E: ParseError<'a>, P: Parser<'a, E>, R: DeepView, G: Accumulate<R, P::Output>>(
    p: P,
    g: G,
    m: nat,
    n: nat,
    s0: SpecInput,
    s: SpecInput,
    acc: R::V,
    count: nat,
) -> SpecResult<R::V, E::V>
    decreases n - count,
{
    if count >= n {
        Ok((s, acc))
    } else {
        match p.spec_parse(s) {
            Ok((r, o)) => if r == s {
                if count < m {
                    Err(ErrMode::Incomplete(Needed::Unknown))
                } else {
                    Ok((s, acc))
                }
            } else {
                spec_fold_m_n_loop(p, g, m, n, s0, r, g.spec_accumulate(acc, o), count + 1)
            },
            Err(ErrMode::Incomplete(x)) => Err(ErrMode::Incomplete(x)),
            Err(_) => if count < m {
                Err(ErrMode::Error(E::spec_from_error_kind(s0, ErrorKind::ManyMN)))
            } else {
                Ok((s, acc))
            },
        }
    }
}

proof fn lemma_fold_m_n_loop_consumes<'a, E: ParseError<'a>, P: Parser<'a, E>, R: DeepView, G: Accumulate<R, P::Output>>(
    p: P,
    g: G,
    m: nat,
    n: nat,
    s0: SpecInput,
    s: SpecInput,
    acc: R::V,
    count: nat,
)
    ensures
        consumes(s, spec_fold_m_n_loop(p, g, m, n, s0, s, acc, count)),
    decreases n - count,
{
    lemma_progress(p, s);
    lemma_suffix_refl(s);
    if count < n {
        if let Ok((r, o)) = p.spec_parse(s) {
            if r != s {
                let acc2 = g.spec_accumulate(acc, o);
                lemma_fold_m_n_loop_consumes(p, g, m, n, s0, r, acc2, count + 1);
                if let Ok((t, _)) = spec_fold_m_n_loop(p, g, m, n, s0, r, acc2, count + 1) {
                    lemma_suffix_trans(t, r, s);
                }
            }
        }
    }
}

/// What `fold_many_m_n(m, n, f, init, g)` computes.
pub open spec fn spec_fold_many_m_n<'a, E: ParseError<'a>, P: Parser<'a, E>, R: DeepView, G: Accumulate<R, P::Output>>(
    m: usize,
    n: usize,
    p: P,
    init: R,
    g: G,
    s: SpecInput,
) -> SpecResult<R::V, E::V> {
    spec_fold_m_n_loop(p, g, m as nat, n as nat, s, s, init.deep_view(), 0)
}

/// Folds the values of a parser applied between `m` and `n` times.
pub struct FoldManyMN<P, R: Clone + DeepView, G> {
    m: usize,
    n: usize,
    parser: P,
    init: R,
    g: G,
}

impl<P, R: Clone + DeepView, G> FoldManyMN<P, R, G> {
    #[verifier::type_invariant]
    spec fn clone_ok(self) -> bool {
        clone_keeps_view::<R>()
    }

    pub closed spec fn m(self) -> usize {
        self.m
    }

    pub closed spec fn n(self) -> usize {
        self.n
    }

    pub closed spec fn parser(self) -> P {
        self.parser
    }

    pub closed spec fn init(self) -> R {
        self.init
    }

    pub closed spec fn g(self) -> G {
        self.g
    }
}

/// Applies `f` at most `n` times, combining its values with `g` starting
/// from a copy of `init`, and fails unless it succeeded at least `m` times.
pub fn fold_many_m_n<P, R: Clone + DeepView, G>(m: usize, n: usize, f: P, init: R, g: G) -> (r:
    FoldManyMN<P, R, G>)
    requires
        clone_keeps_view::<R>(),
    ensures
        r.m() == m,
        r.n() == n,
        r.parser() == f,
        r.init() == init,
        r.g() == g,
{
    FoldManyMN { m, n, parser: f, init, g }
}

impl<'a, E: ParseError<'a>, P: Parser<'a, E>, R: Clone + DeepView, G: Accumulate<R, P::Output>> Parser<'a, E> for FoldManyMN<
    P,
    R,
    G,
> {
    type Output = R;

    open spec fn spec_parse(&self, input: SpecInput) -> SpecResult<R::V, E::V> {
        spec_fold_many_m_n(self.m(), self.n(), self.parser(), self.init(), self.g(), input)
    }

    proof fn lemma_parse_consumes(&self, input: SpecInput) {
        lemma_fold_m_n_loop_consumes(
            self.parser(),
            self.g(),
            self.m() as nat,
            self.n() as nat,
            input,
            input,
            self.init().deep_view(),
            0,
        );
    }

    fn parse(&self, i: Input<'a>) -> (r: IResult<'a, R, E>) {
        proof {
            use_type_invariant(self);
        }
        let mut acc = clone_init(&self.init);
        let mut input = i;
        let mut count: usize = 0;
        while count < self.n
            invariant
                input@.wf(),
                count <= self.n,
                spec_fold_many_m_n(self.m(), self.n(), self.parser(), self.init(), self.g(), i@)
                    == spec_fold_m_n_loop(
                    self.parser(),
                    self.g(),
                    self.m() as nat,
                    self.n() as nat,
                    i@,
                    input@,
                    acc.deep_view(),
                    count as nat,
                ),
            decreases self.n - count,
        {
            proof {
                lemma_progress(self.parser, input@);
            }
            match self.parser.parse(input) {
                Ok((rest, o)) => {
                    if same_input(&rest, &input) {
                        if count < self.m {
                            return Err(ErrMode::Incomplete(Needed::Unknown));
                        } else {
                            return Ok((input, acc));
                        }
                    }
                    acc = self.g.accumulate(acc, o);
                    input = rest;
                },
                Err(ErrMode::Incomplete(x)) => {
                    return Err(ErrMode::Incomplete(x));
                },
                Err(_) => {
                    if count < self.m {
                        return Err(ErrMode::Error(E::from_error_kind(i, ErrorKind::ManyMN)));
                    } else {
                        return Ok((input, acc));
                    }
                },
            }
            count = count + 1;
        }
        Ok((input, acc))
    }
}

/// Runs `fold_many_m_n(m, n, f, init, g)` on `input`.
pub fn fold_many_m_nc<'a, E: ParseError<'a>, P: Parser<'a, E>, R: Clone + DeepView, G: Accumulate<R, P::Output>>(
    input: Input<'a>,
    m: usize,
    n: usize,
    f: P,
    init: R,
    g: G,
) -> (r: IResult<'a, R, E>)
    requires
        input@.wf(),
        clone_keeps_view::<R>(),
    ensures
        view_result(r) == spec_fold_many_m_n(m, n, f, init, g, input@),
{
    fold_many_m_n(m, n, f, init, g).parse(input)
}

} // verus!

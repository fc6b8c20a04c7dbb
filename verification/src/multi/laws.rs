//! Properties that relate the repetition combinators to one another, or
//! that hold of every result of one of them.

use vstd::prelude::*;
use crate::input::{SpecInput, Parser};
use crate::error::{ErrMode, ErrorKind, ParseError};
use crate::multi::many::{spec_many_loop, spec_many1, lemma_progress, lemma_suffix_refl};
use crate::multi::separated::{spec_separated_list, spec_separated_nonempty_list};
use crate::multi::bounded::{spec_many_m_n, spec_count, lemma_m_n_loop, lemma_count_loop};
use crate::multi::counting::{spec_many0_count, spec_many0_count_loop, spec_many1_count, lemma_count_loops};
use crate::multi::length::{IntoLength, spec_length_value};
use crate::multi::fold::{
    Accumulate, Push, spec_fold_many0, spec_fold_many0_loop, spec_fold_many1, spec_fold_many1_loop,
    spec_fold_m_n_loop, spec_fold_many_m_n,
};
use crate::multi::bounded::spec_m_n_loop;

verus! {

/// The repetition loop does not depend on what was collected before, nor,
/// when it succeeds, on the kind of its errors: run from the same input
/// with other values collected, it succeeds or not alike, stops at the same
/// place and adds the same values.
pub proof fn lemma_many_loop_shift<'a, E: ParseError<'a>, P: Parser<'a, E>>(
    p: P,
    s: SpecInput,
    a1: Seq<<P::Output as DeepView>::V>,
    a2: Seq<<P::Output as DeepView>::V>,
    k1: ErrorKind,
    k2: ErrorKind,
)
    ensures
        (spec_many_loop(p, s, a1, k1) is Ok) == (spec_many_loop(p, s, a2, k2) is Ok),
        spec_many_loop(p, s, a1, k1) matches Ok((t1, v1)) ==> spec_many_loop(
            p,
            s,
            a2,
            k2,
        ) matches Ok((t2, v2)) && t1 == t2 && a1.len() <= v1.len() && v1 == a1 + v1.skip(
            a1.len() as int,
        ) && v2 == a2 + v1.skip(a1.len() as int),
    decreases s.data.len(),
{
    lemma_progress(p, s);
    match p.spec_parse(s) {
        Ok((r, o)) => {
            if r != s {
                lemma_many_loop_shift(p, r, a1.push(o), a2.push(o), k1, k2);
                if let Ok((t1, v1)) = spec_many_loop(p, r, a1.push(o), k1) {
                    let d = v1.skip((a1.len() + 1) as int);
                    assert(v1.skip(a1.len() as int) =~= seq![o] + d) by {
                        assert(v1 == a1.push(o) + d);
                        assert(v1[a1.len() as int] == o);
                    }
                    assert(v1 =~= a1 + v1.skip(a1.len() as int));
                    if let Ok((t2, v2)) = spec_many_loop(p, r, a2.push(o), k2) {
                        assert(v2 =~= a2 + v1.skip(a1.len() as int));
                    }
                }
            }
        },
        _ => {
            assert(a1 =~= a1 + Seq::<<P::Output as DeepView>::V>::empty().skip(0));
            assert(a1.skip(a1.len() as int) =~= Seq::<<P::Output as DeepView>::V>::empty());
            assert(a2 =~= a2 + a1.skip(a1.len() as int));
        },
    }
}

/// `many1(f)` is one application of `f` followed by `many0(f)`: it succeeds
/// exactly when `f` succeeds and `many0(f)` succeeds on what `f` left, and
/// then it stops where `many0(f)` stops, with the value of `f` followed by
/// the values of `many0(f)`.
pub proof fn law_many1_is_f_then_many0<'a, E: ParseError<'a>, P: Parser<'a, E>>(p: P, s: SpecInput)
    ensures
        (spec_many1(p, s) is Ok) == (p.spec_parse(s) matches Ok((r, _)) && spec_many_loop(
            p,
            r,
            Seq::empty(),
            ErrorKind::Many0,
        ) is Ok),
        p.spec_parse(s) matches Ok((r, o)) ==> (spec_many_loop(
            p,
            r,
            Seq::empty(),
            ErrorKind::Many0,
        ) matches Ok((t, v)) ==> spec_many1(p, s) == Ok::<
            (SpecInput, Seq<<P::Output as DeepView>::V>),
            ErrMode<E::V>,
        >((t, seq![o] + v))),
{
    if let Ok((r, o)) = p.spec_parse(s) {
        lemma_many_loop_shift(p, r, seq![o], Seq::empty(), ErrorKind::Many1, ErrorKind::Many0);
        if let Ok((t, v)) = spec_many_loop(p, r, Seq::empty(), ErrorKind::Many0) {
            if let Ok((t1, v1)) = spec_many_loop(p, r, seq![o], ErrorKind::Many1) {
                assert(v =~= v1.skip(1));
                assert(v1 =~= seq![o] + v);
            }
        }
    }
}

/// `many0(f)` only returns an `Error` of its own, of kind `Many0`, at an
/// input on which `f` succeeds without consuming anything: every `Error` of
/// `f` ends the repetition successfully.
pub proof fn law_many0_errors_are_many0<'a, E: ParseError<'a>, P: Parser<'a, E>>(
    p: P,
    s: SpecInput,
    acc: Seq<<P::Output as DeepView>::V>,
)
    ensures
        spec_many_loop(p, s, acc, ErrorKind::Many0) matches Err(ErrMode::Error(e)) ==> exists|
            t: SpecInput,
        |
            #![trigger E::spec_from_error_kind(t, ErrorKind::Many0)]
            t.is_suffix_of(s) && e == E::spec_from_error_kind(t, ErrorKind::Many0) && (
            p.spec_parse(t) matches Ok((r, _)) && r == t),
    decreases s.data.len(),
{
    lemma_progress(p, s);
    lemma_suffix_refl(s);
    if let Ok((r, o)) = p.spec_parse(s) {
        if r != s {
            law_many0_errors_are_many0(p, r, acc.push(o));
            if let Err(ErrMode::Error(e)) = spec_many_loop(p, r, acc.push(o), ErrorKind::Many0) {
                let t = choose|t: SpecInput|
                    #![trigger E::spec_from_error_kind(t, ErrorKind::Many0)]
                    t.is_suffix_of(r) && e == E::spec_from_error_kind(t, ErrorKind::Many0) && (
                    p.spec_parse(t) matches Ok((r2, _)) && r2 == t);
                crate::multi::many::lemma_suffix_trans(t, r, s);
            }
        } else {
            assert(E::spec_from_error_kind(s, ErrorKind::Many0) == E::spec_from_error_kind(s, ErrorKind::Many0));
        }
    }
}

/// Whatever `many1(f)` returns on success holds at least one value.
pub proof fn law_many1_nonempty<'a, E: ParseError<'a>, P: Parser<'a, E>>(p: P, s: SpecInput)
    ensures
        spec_many1(p, s) matches Ok((_, v)) ==> v.len() >= 1,
{
    if let Ok((r, o)) = p.spec_parse(s) {
        lemma_many_loop_shift(p, r, seq![o], Seq::empty(), ErrorKind::Many1, ErrorKind::Many0);
    }
}

/// `separated_list` and `separated_nonempty_list` differ only when the first
/// element fails with an `Error`: wherever the first element does not,
/// they return the same.
pub proof fn law_separated_lists_agree<'a, E: ParseError<'a>, S: Parser<'a, E>, F: Parser<'a, E>>(
    sep: S,
    f: F,
    s: SpecInput,
)
    ensures
        !(f.spec_parse(s) is Err && f.spec_parse(s)->Err_0 is Error) ==> spec_separated_list(
            sep,
            f,
            s,
        ) == spec_separated_nonempty_list(sep, f, s),
{
}

/// Whatever `separated_nonempty_list` returns on success holds at least one
/// element, and `separated_list` returns the same there.
pub proof fn law_separated_nonempty_list_nonempty<'a, E: ParseError<'a>, S: Parser<'a, E>, F: Parser<'a, E>>(
    sep: S,
    f: F,
    s: SpecInput,
)
    ensures
        spec_separated_nonempty_list(sep, f, s) matches Ok((_, v)) ==> v.len() >= 1
            && spec_separated_list(sep, f, s) == spec_separated_nonempty_list(sep, f, s),
{
    if let Ok((r, o)) = f.spec_parse(s) {
        if r != s {
            lemma_separated_loop_grows(sep, f, r, seq![o]);
        }
    }
}

/// The loop of the separated lists only adds elements.
proof fn lemma_separated_loop_grows<'a, E: ParseError<'a>, S: Parser<'a, E>, F: Parser<'a, E>>(
    sep: S,
    f: F,
    s: SpecInput,
    acc: Seq<<F::Output as DeepView>::V>,
)
    ensures
        crate::multi::separated::spec_separated_loop(sep, f, s, acc) matches Ok((_, v)) ==> v.len()
            >= acc.len(),
    decreases s.data.len(),
{
    lemma_progress(sep, s);
    if let Ok((r1, _)) = sep.spec_parse(s) {
        if r1 != s {
            lemma_progress(f, r1);
            if let Ok((r2, o)) = f.spec_parse(r1) {
                if r2 != s {
                    crate::multi::many::lemma_suffix_trans(r2, r1, s);
                    lemma_separated_loop_grows(sep, f, r2, acc.push(o));
                }
            }
        }
    }
}

/// On success, `count(f, n)` returns exactly `n` values.
pub proof fn law_count_exact<'a, E: ParseError<'a>, P: Parser<'a, E>>(p: P, n: usize, s: SpecInput)
    ensures
        spec_count(p, n, s) matches Ok((_, v)) ==> v.len() == n,
{
    lemma_count_loop(p, s, s, Seq::empty(), n as nat);
}

/// On success, `many_m_n(m, n, f)` returns at least `m` and at most `n`
/// values.
pub proof fn law_many_m_n_bounds<'a, E: ParseError<'a>, P: Parser<'a, E>>(p: P, m: usize, n: usize, s: SpecInput)
    ensures
        spec_many_m_n(p, m, n, s) matches Ok((_, v)) ==> m <= v.len() <= n,
{
    lemma_m_n_loop(p, s, Seq::empty(), n as nat);
}

/// Where the repetition of `many0(f)` ends at an `Error` of `f`,
/// `many0_count(f)` stops at the same place and counts the values that
/// `many0(f)` collects.
pub proof fn law_many0_count_counts_many0<'a, E: ParseError<'a>, P: Parser<'a, E>>(
    p: P,
    s: SpecInput,
    acc: Seq<<P::Output as DeepView>::V>,
)
    ensures
        spec_many_loop(p, s, acc, ErrorKind::Many0) matches Ok((t, v)) ==> (p.spec_parse(
            t,
        ) is Err && p.spec_parse(t)->Err_0 is Error ==> spec_many0_count_loop(p, s, acc.len())
            == Ok::<(SpecInput, nat), ErrMode<E::V>>((t, v.len()))),
    decreases s.data.len(),
{
    lemma_progress(p, s);
    if let Ok((r, o)) = p.spec_parse(s) {
        if r != s {
            law_many0_count_counts_many0(p, r, acc.push(o));
        }
    }
}

/// The same, for the combinators themselves: where `many0(f)` ends at an
/// `Error` of `f`, `many0_count(f)` returns the number of its values.
pub proof fn law_many0_count_is_len_of_many0<'a, E: ParseError<'a>, P: Parser<'a, E>>(p: P, s: SpecInput)
    ensures
        spec_many_loop(p, s, Seq::empty(), ErrorKind::Many0) matches Ok((t, v)) ==> (
        p.spec_parse(t) is Err && p.spec_parse(t)->Err_0 is Error ==> spec_many0_count(p, s)
            == Ok::<(SpecInput, usize), ErrMode<E::V>>((t, v.len() as usize))),
{
    law_many0_count_counts_many0(p, s, Seq::empty());
}

/// Where the repetition of `many0(f)` ends at an `Error` of `f`,
/// `fold_many0(f, init, g)` stops at the same place with `g` folded over
/// the values that `many0(f)` collects, from the left, starting at `init`.
pub proof fn law_fold_many0_folds_many0<'a, E: ParseError<'a>, P: Parser<'a, E>, R: DeepView, G: Accumulate<R, P::Output>>(
    p: P,
    g: G,
    init: R::V,
    s: SpecInput,
    acc: Seq<<P::Output as DeepView>::V>,
)
    ensures
        spec_many_loop(p, s, acc, ErrorKind::Many0) matches Ok((t, v)) ==> (p.spec_parse(
            t,
        ) is Err && p.spec_parse(t)->Err_0 is Error ==> spec_fold_many0_loop(
            p,
            g,
            s,
            acc.fold_left(init, |b: R::V, x: <P::Output as DeepView>::V| g.spec_accumulate(b, x)),
        ) == Ok::<(SpecInput, R::V), ErrMode<E::V>>(
            (t, v.fold_left(init, |b: R::V, x: <P::Output as DeepView>::V| g.spec_accumulate(b, x))),
        )),
    decreases s.data.len(),
{
    let step = |b: R::V, x: <P::Output as DeepView>::V| g.spec_accumulate(b, x);
    lemma_progress(p, s);
    if let Ok((r, o)) = p.spec_parse(s) {
        if r != s {
            law_fold_many0_folds_many0(p, g, init, r, acc.push(o));
            assert(acc.push(o).drop_last() =~= acc);
            assert(acc.push(o).fold_left(init, step) == step(acc.fold_left(init, step), o));
        }
    }
}

/// The same, for the combinators themselves, from an empty list of values.
pub proof fn law_fold_many0_is_fold_of_many0<'a, E: ParseError<'a>, P: Parser<'a, E>, R: DeepView, G: Accumulate<R, P::Output>>(
    p: P,
    init: R,
    g: G,
    s: SpecInput,
)
    ensures
        spec_many_loop(p, s, Seq::empty(), ErrorKind::Many0) matches Ok((t, v)) ==> (
        p.spec_parse(t) is Err && p.spec_parse(t)->Err_0 is Error ==> spec_fold_many0(
            p,
            init,
            g,
            s,
        ) == Ok::<(SpecInput, R::V), ErrMode<E::V>>(
            (
                t,
                v.fold_left(
                    init.deep_view(),
                    |b: R::V, x: <P::Output as DeepView>::V| g.spec_accumulate(b, x),
                ),
            ),
        )),
{
    law_fold_many0_folds_many0(p, g, init.deep_view(), s, Seq::empty());
}

/// Every value that `many0_count(f)` counts consumed at least one byte: the
/// count is at most the number of bytes consumed.
pub proof fn law_many0_count_bounded<'a, E: ParseError<'a>, P: Parser<'a, E>>(p: P, s: SpecInput)
    ensures
        spec_many0_count(p, s) matches Ok((rest, c)) ==> c <= s.data.len() - rest.data.len(),
{
    lemma_count_loops(p, s, 0);
}

/// On success, `many1_count(f)` counts at least one value, and at most one
/// more than the number of bytes consumed.
pub proof fn law_many1_count_bounded<'a, E: ParseError<'a>, P: Parser<'a, E>>(p: P, s: SpecInput)
    requires
        s.wf(),
    ensures
        spec_many1_count(p, s) matches Ok((rest, c)) ==> 1 <= c <= 1 + s.data.len()
            - rest.data.len(),
{
    lemma_progress(p, s);
    if let Ok((r, _)) = p.spec_parse(s) {
        lemma_count_loops(p, r, 1);
    }
}

/// On success, `length_value(f, g)` consumes the length that `f` read and
/// exactly as many bytes after it, whatever `g` left of them.
pub proof fn law_length_value_skips_block<'a, E: ParseError<'a>, F: Parser<'a, E>, G: Parser<'a, E>>(
    f: F,
    g: G,
    s: SpecInput,
)
    where F::Output: IntoLength,
    ensures
        spec_length_value(f, g, s) matches Ok((rest, _)) ==> (f.spec_parse(s) matches Ok((r, n))
            && rest == r.skip(<F::Output as IntoLength>::spec_into_length(n) as int)
            && <F::Output as IntoLength>::spec_into_length(n) <= r.data.len()),
{
}

/// Wherever the loop of `fold_many0` succeeds, the loop of `fold_many1`
/// run from the same place with the same accumulator gives the same.
proof fn lemma_fold_loops_agree<'a, E: ParseError<'a>, P: Parser<'a, E>, R: DeepView, G: Accumulate<R, P::Output>>(
    p: P,
    g: G,
    s0: SpecInput,
    s: SpecInput,
    acc: R::V,
)
    ensures
        spec_fold_many0_loop(p, g, s, acc) is Ok ==> spec_fold_many1_loop(p, g, s0, s, acc)
            == spec_fold_many0_loop(p, g, s, acc),
    decreases s.data.len(),
{
    lemma_progress(p, s);
    if let Ok((r, o)) = p.spec_parse(s) {
        if r != s {
            lemma_fold_loops_agree(p, g, s0, r, g.spec_accumulate(acc, o));
        }
    }
}

/// Where the first application of `f` consumes input and
/// `fold_many0(f, init, g)` succeeds, `fold_many1(f, init, g)` returns the
/// same.
pub proof fn law_fold_many1_is_fold_many0_when_first_consumes<'a, E: ParseError<'a>, P: Parser<'a, E>, R: DeepView, G: Accumulate<R, P::Output>>(
    p: P,
    init: R,
    g: G,
    s: SpecInput,
)
    ensures
        p.spec_parse(s) matches Ok((r, _)) && r != s ==> (spec_fold_many0(p, init, g, s) is Ok
            ==> spec_fold_many1(p, init, g, s) == spec_fold_many0(p, init, g, s)),
{
    if let Ok((r, o)) = p.spec_parse(s) {
        if r != s {
            lemma_fold_loops_agree(p, g, s, r, g.spec_accumulate(init.deep_view(), o));
        }
    }
}

/// Where the loop of `many_m_n` stops with at least `m` values, after
/// reaching the bound, consuming nothing, or an `Error`, the loop of
/// `fold_many_m_n` that appends each value to the values collected so far
/// stops at the same place with the same values.
proof fn lemma_fold_m_n_push<'a, E: ParseError<'a>, P: Parser<'a, E>>(
    p: P,
    m: nat,
    n: nat,
    s0: SpecInput,
    s: SpecInput,
    acc: Seq<<P::Output as DeepView>::V>,
)
    requires
        acc.len() <= n,
    ensures
        ({
            let (rest, out, end) = spec_m_n_loop(p, s, acc, n);
            out.len() >= m && (end is Clean || end is Error) ==> spec_fold_m_n_loop::<
                'a,
                E,
                P,
                Vec<P::Output>,
                Push,
            >(p, Push, m, n, s0, s, acc, acc.len()) == Ok::<
                (SpecInput, Seq<<P::Output as DeepView>::V>),
                ErrMode<E::V>,
            >((rest, out))
        }),
    decreases n - acc.len(),
{
    if acc.len() < n {
        lemma_progress(p, s);
        if let Ok((r, o)) = p.spec_parse(s) {
            if r != s {
                lemma_fold_m_n_push(p, m, n, s0, r, acc.push(o));
            }
        }
    }
}

/// Wherever `many_m_n(m, n, f)` succeeds, `fold_many_m_n(m, n, f, init,
/// Push)` from an empty vector `init` returns the same.
pub proof fn law_fold_many_m_n_push_is_many_m_n<'a, E: ParseError<'a>, P: Parser<'a, E>>(
    p: P,
    m: usize,
    n: usize,
    init: Vec<P::Output>,
    s: SpecInput,
)
    requires
        init@.len() == 0,
    ensures
        spec_many_m_n(p, m, n, s) is Ok ==> spec_fold_many_m_n(m, n, p, init, Push, s)
            == spec_many_m_n(p, m, n, s),
{
    assert(init.deep_view() =~= Seq::<<P::Output as DeepView>::V>::empty());
    lemma_fold_m_n_push(p, m as nat, n as nat, s, s, Seq::empty());
}

/// Folding a sequence by appending each element, starting from nothing,
/// gives the sequence back.
proof fn lemma_fold_left_push<V>(v: Seq<V>, f: spec_fn(Seq<V>, V) -> Seq<V>)
    requires
        forall|b: Seq<V>, x: V| #[trigger] f(b, x) == b.push(x),
    ensures
        v.fold_left(Seq::empty(), f) == v,
    decreases v.len(),
{
    if v.len() > 0 {
        lemma_fold_left_push(v.drop_last(), f);
        assert(v.drop_last().push(v.last()) =~= v);
    }
}

/// Where `many0(f)` ends at an `Error` of `f`, `fold_many0(f, init, Push)`
/// from an empty vector `init` stops at the same place with the same values.
pub proof fn law_fold_many0_push_is_many0<'a, E: ParseError<'a>, P: Parser<'a, E>>(
    p: P,
    init: Vec<P::Output>,
    s: SpecInput,
)
    requires
        init@.len() == 0,
    ensures
        spec_many_loop(p, s, Seq::empty(), ErrorKind::Many0) matches Ok((t, v)) ==> (
        p.spec_parse(t) is Err && p.spec_parse(t)->Err_0 is Error ==> spec_fold_many0(
            p,
            init,
            Push,
            s,
        ) == Ok::<(SpecInput, Seq<<P::Output as DeepView>::V>), ErrMode<E::V>>((t, v))),
{
    law_fold_many0_is_fold_of_many0(p, init, Push, s);
    assert(init.deep_view() =~= Seq::<<P::Output as DeepView>::V>::empty());
    if let Ok((t, v)) = spec_many_loop(p, s, Seq::empty(), ErrorKind::Many0) {
        let f = |b: Seq<<P::Output as DeepView>::V>, x: <P::Output as DeepView>::V|
            <Push as Accumulate<Vec<P::Output>, P::Output>>::spec_accumulate(&Push, b, x);
        lemma_fold_left_push(v, f);
    }
}

} // verus!

//! Laws that tie the result of each repetition to the successive
//! applications of its parsers: which values it returns, in which order,
//! and where it stops.
//!
//! The predicates here speak only of the parsers being repeated, one
//! application after another from the start of the input; they say nothing
//! of how a combinator is written.

use vstd::prelude::*;
use crate::input::{SpecInput, Parser};
use crate::error::{ErrMode, ErrorKind, Needed, ParseError};
use crate::multi::many::{Many0, Many1, ManyTill, spec_many_loop, spec_many_till_loop, lemma_progress};
use crate::multi::counting::{Many0Count, Many1Count, spec_many1_count_loop};
use crate::multi::fold::{Accumulate, spec_fold_many0, spec_fold_many1, spec_fold_m_n_loop, spec_fold_many_m_n};
use crate::multi::laws::{
    law_many0_count_is_len_of_many0, law_fold_many0_is_fold_of_many0,
    law_fold_many1_is_fold_many0_when_first_consumes,
};
use crate::multi::separated::{
    SeparatedList, SeparatedNonemptyList, spec_separated_loop, lemma_round_progress,
};
use crate::multi::bounded::{ManyMN, Count, spec_m_n_loop, spec_count_loop, lemma_m_n_loop, LoopEnd};
use crate::multi::length::{LengthValue, IntoLength};

verus! {

/// Applying `p` `vals.len()` times in a row from `s`, each application
/// succeeds and consumes input, the `i`-th gives `vals[i]`, and the last one
/// ends at `t`.
pub open spec fn runs<'a, E: ParseError<'a>, P: Parser<'a, E>>(
    p: P,
    s: SpecInput,
    vals: Seq<<P::Output as DeepView>::V>,
    t: SpecInput,
) -> bool
    decreases vals.len(),
{
    if vals.len() == 0 {
        s == t
    } else {
        match p.spec_parse(s) {
            Ok((r, o)) => r != s && o == vals[0] && runs(p, r, vals.drop_first(), t),
            Err(_) => false,
        }
    }
}

/// Applying `p` `vals.len()` times in a row from `s`, each application
/// succeeds (consuming input or not), the `i`-th gives `vals[i]`, and the
/// last one ends at `t`.
pub open spec fn applies<'a, E: ParseError<'a>, P: Parser<'a, E>>(
    p: P,
    s: SpecInput,
    vals: Seq<<P::Output as DeepView>::V>,
    t: SpecInput,
) -> bool
    decreases vals.len(),
{
    if vals.len() == 0 {
        s == t
    } else {
        match p.spec_parse(s) {
            Ok((r, o)) => o == vals[0] && applies(p, r, vals.drop_first(), t),
            Err(_) => false,
        }
    }
}

/// A bounded repetition that has `count` values at `t` goes no further:
/// it has reached the bound `n`, or `p` gives an `Error` at `t`, or `p`
/// succeeds at `t` without consuming anything.
pub open spec fn m_n_stops_at<'a, E: ParseError<'a>, P: Parser<'a, E>>(
    p: P,
    t: SpecInput,
    count: nat,
    n: nat,
) -> bool {
    ||| count >= n
    ||| (p.spec_parse(t) is Err && p.spec_parse(t)->Err_0 is Error)
    ||| (p.spec_parse(t) matches Ok((r, _)) && r == t)
}

proof fn lemma_m_n_loop_follows_runs<'a, E: ParseError<'a>, P: Parser<'a, E>>(
    p: P,
    s: SpecInput,
    acc: Seq<<P::Output as DeepView>::V>,
    vals: Seq<<P::Output as DeepView>::V>,
    t: SpecInput,
    n: nat,
)
    requires
        runs(p, s, vals, t),
        acc.len() + vals.len() <= n,
        m_n_stops_at(p, t, acc.len() + vals.len(), n),
    ensures
        ({
            let (rest, out, end) = spec_m_n_loop(p, s, acc, n);
            &&& rest == t
            &&& out == acc + vals
            &&& (end is Clean || end is Error)
        }),
    decreases vals.len(),
{
    if vals.len() == 0 {
        assert(acc + vals =~= acc);
    } else {
        if let Ok((r, o)) = p.spec_parse(s) {
            lemma_m_n_loop_follows_runs(p, r, acc.push(o), vals.drop_first(), t, n);
            assert(acc.push(o) + vals.drop_first() =~= acc + vals);
        }
    }
}

proof fn lemma_m_n_loop_is_runs<'a, E: ParseError<'a>, P: Parser<'a, E>>(
    p: P,
    s: SpecInput,
    acc: Seq<<P::Output as DeepView>::V>,
    n: nat,
)
    requires
        acc.len() <= n,
    ensures
        ({
            let (rest, out, end) = spec_m_n_loop(p, s, acc, n);
            &&& acc.len() <= out.len()
            &&& out.subrange(0, acc.len() as int) == acc
            &&& runs(p, s, out.skip(acc.len() as int), rest)
            &&& ((end is Clean || end is Error) ==> m_n_stops_at(p, rest, out.len(), n))
        }),
    decreases n - acc.len(),
{
    lemma_m_n_loop(p, s, acc, n);
    lemma_progress(p, s);
    let (rest, out, end) = spec_m_n_loop(p, s, acc, n);
    if acc.len() < n {
        if let Ok((r, o)) = p.spec_parse(s) {
            if r != s {
                lemma_m_n_loop_is_runs(p, r, acc.push(o), n);
                let tail = out.skip(acc.len() as int);
                assert(out.subrange(0, (acc.len() + 1) as int) == acc.push(o));
                assert(tail[0] == out.subrange(0, (acc.len() + 1) as int)[acc.len() as int]);
                assert(tail.drop_first() =~= out.skip((acc.len() + 1) as int));
                return;
            }
        }
    }
    assert(out.skip(acc.len() as int) =~= Seq::<<P::Output as DeepView>::V>::empty());
}

/// `many_m_n(m, n, f)` returns `(t, v)` exactly when `v` are the values of
/// successive applications of `f` from the start, each consuming input,
/// ending at `t`, with `m <= v.len() <= n`, and the repetition goes no
/// further at `t`.
pub proof fn law_many_m_n_is_runs<'a, E: ParseError<'a>, P: Parser<'a, E>>(
    p: P,
    m: usize,
    n: usize,
    s: SpecInput,
    t: SpecInput,
    v: Seq<<P::Output as DeepView>::V>,
)
    ensures
        ((ManyMN { m, n, parser: p }).spec_parse(s) == Ok::<
            (SpecInput, Seq<<P::Output as DeepView>::V>),
            ErrMode<E::V>,
        >((t, v))) <==> (runs(p, s, v, t) && m <= v.len() <= n && m_n_stops_at(
            p,
            t,
            v.len(),
            n as nat,
        )),
{
    let empty = Seq::<<P::Output as DeepView>::V>::empty();
    lemma_m_n_loop(p, s, empty, n as nat);
    lemma_m_n_loop_is_runs(p, s, empty, n as nat);
    let (rest, out, end) = spec_m_n_loop(p, s, empty, n as nat);
    assert(out.skip(0) =~= out);
    if runs(p, s, v, t) && m <= v.len() <= n && m_n_stops_at(p, t, v.len(), n as nat) {
        lemma_m_n_loop_follows_runs(p, s, empty, v, t, n as nat);
        assert(empty + v =~= v);
    }
}

proof fn lemma_count_loop_follows<'a, E: ParseError<'a>, P: Parser<'a, E>>(
    p: P,
    s0: SpecInput,
    s: SpecInput,
    acc: Seq<<P::Output as DeepView>::V>,
    vals: Seq<<P::Output as DeepView>::V>,
    t: SpecInput,
)
    requires
        applies(p, s, vals, t),
    ensures
        spec_count_loop(p, s0, s, acc, vals.len()) == Ok::<
            (SpecInput, Seq<<P::Output as DeepView>::V>),
            ErrMode<E::V>,
        >((t, acc + vals)),
    decreases vals.len(),
{
    if vals.len() == 0 {
        assert(acc + vals =~= acc);
    } else {
        if let Ok((r, o)) = p.spec_parse(s) {
            lemma_count_loop_follows(p, s0, r, acc.push(o), vals.drop_first(), t);
            assert(acc.push(o) + vals.drop_first() =~= acc + vals);
            assert((vals.len() - 1) as nat == vals.drop_first().len());
        }
    }
}

proof fn lemma_count_loop_applies<'a, E: ParseError<'a>, P: Parser<'a, E>>(
    p: P,
    s0: SpecInput,
    s: SpecInput,
    acc: Seq<<P::Output as DeepView>::V>,
    k: nat,
)
    ensures
        spec_count_loop(p, s0, s, acc, k) matches Ok((t, out)) ==> {
            &&& out.len() == acc.len() + k
            &&& out.subrange(0, acc.len() as int) == acc
            &&& applies(p, s, out.skip(acc.len() as int), t)
        },
    decreases k,
{
    crate::multi::bounded::lemma_count_loop(p, s0, s, acc, k);
    if let Ok((t, out)) = spec_count_loop(p, s0, s, acc, k) {
        if k == 0 {
            assert(out.skip(acc.len() as int) =~= Seq::<<P::Output as DeepView>::V>::empty());
        } else {
            if let Ok((r, o)) = p.spec_parse(s) {
                lemma_count_loop_applies(p, s0, r, acc.push(o), (k - 1) as nat);
                let tail = out.skip(acc.len() as int);
                assert(out.subrange(0, (acc.len() + 1) as int) == acc.push(o));
                assert(tail[0] == out.subrange(0, (acc.len() + 1) as int)[acc.len() as int]);
                assert(tail.drop_first() =~= out.skip((acc.len() + 1) as int));
            }
        }
    }
}

/// `count(f, n)` returns `(t, v)` exactly when `v` are the values of `n`
/// successive applications of `f` from the start, in input order, the last
/// one ending at `t`.
pub proof fn law_count_is_applications<'a, E: ParseError<'a>, P: Parser<'a, E>>(
    p: P,
    n: usize,
    s: SpecInput,
    t: SpecInput,
    v: Seq<<P::Output as DeepView>::V>,
)
    ensures
        ((Count { parser: p, count: n }).spec_parse(s) == Ok::<
            (SpecInput, Seq<<P::Output as DeepView>::V>),
            ErrMode<E::V>,
        >((t, v))) <==> (v.len() == n && applies(p, s, v, t)),
{
    let empty = Seq::<<P::Output as DeepView>::V>::empty();
    lemma_count_loop_applies(p, s, s, empty, n as nat);
    if let Ok((rest, out)) = spec_count_loop(p, s, s, empty, n as nat) {
        assert(out.skip(0) =~= out);
    }
    if v.len() == n && applies(p, s, v, t) {
        lemma_count_loop_follows(p, s, s, empty, v, t);
        assert(empty + v =~= v);
    }
}

/// After a first element, `vals` are the elements of successive rounds from
/// `s`, ending at `t`: in each round the separator succeeds and consumes
/// input, then the element succeeds and ends short of where the round began;
/// the `i`-th round gives `vals[i]`.
pub open spec fn sep_rounds<'a, E: ParseError<'a>, S: Parser<'a, E>, F: Parser<'a, E>>(
    sep: S,
    f: F,
    s: SpecInput,
    vals: Seq<<F::Output as DeepView>::V>,
    t: SpecInput,
) -> bool
    decreases vals.len(),
{
    if vals.len() == 0 {
        s == t
    } else {
        match sep.spec_parse(s) {
            Ok((r1, _)) => r1 != s && match f.spec_parse(r1) {
                Ok((r2, o)) => r2 != s && o == vals[0] && sep_rounds(
                    sep,
                    f,
                    r2,
                    vals.drop_first(),
                    t,
                ),
                Err(_) => false,
            },
            Err(_) => false,
        }
    }
}

/// No further round can start at `t`: the separator gives an `Error`, or
/// consumes nothing, or the element after it gives an `Error`.
pub open spec fn sep_stops<'a, E: ParseError<'a>, S: Parser<'a, E>, F: Parser<'a, E>>(
    sep: S,
    f: F,
    t: SpecInput,
) -> bool {
    match sep.spec_parse(t) {
        Err(ErrMode::Error(_)) => true,
        Err(_) => false,
        Ok((r1, _)) => r1 == t || (f.spec_parse(r1) is Err && f.spec_parse(r1)->Err_0 is Error),
    }
}

/// A non-empty list `v` from `s` to `t`: the first element gives `v[0]` and
/// consumes input, the rounds after it give the rest of `v` in order and end
/// at `t`, and no further round can start there.
pub open spec fn sep_list<'a, E: ParseError<'a>, S: Parser<'a, E>, F: Parser<'a, E>>(
    sep: S,
    f: F,
    s: SpecInput,
    v: Seq<<F::Output as DeepView>::V>,
    t: SpecInput,
) -> bool {
    &&& v.len() > 0
    &&& f.spec_parse(s) matches Ok((r, o)) && r != s && o == v[0] && sep_rounds(
        sep,
        f,
        r,
        v.drop_first(),
        t,
    )
    &&& sep_stops(sep, f, t)
}

proof fn lemma_separated_loop_follows<'a, E: ParseError<'a>, S: Parser<'a, E>, F: Parser<'a, E>>(
    sep: S,
    f: F,
    s: SpecInput,
    acc: Seq<<F::Output as DeepView>::V>,
    vals: Seq<<F::Output as DeepView>::V>,
    t: SpecInput,
)
    requires
        sep_rounds(sep, f, s, vals, t),
        sep_stops(sep, f, t),
    ensures
        spec_separated_loop(sep, f, s, acc) == Ok::<
            (SpecInput, Seq<<F::Output as DeepView>::V>),
            ErrMode<E::V>,
        >((t, acc + vals)),
    decreases vals.len(),
{
    if vals.len() == 0 {
        assert(acc + vals =~= acc);
    } else {
        if let Ok((r1, _)) = sep.spec_parse(s) {
            if let Ok((r2, o)) = f.spec_parse(r1) {
                lemma_separated_loop_follows(sep, f, r2, acc.push(o), vals.drop_first(), t);
                assert(acc.push(o) + vals.drop_first() =~= acc + vals);
            }
        }
    }
}

proof fn lemma_separated_loop_rounds<'a, E: ParseError<'a>, S: Parser<'a, E>, F: Parser<'a, E>>(
    sep: S,
    f: F,
    s: SpecInput,
    acc: Seq<<F::Output as DeepView>::V>,
)
    ensures
        spec_separated_loop(sep, f, s, acc) matches Ok((t, out)) ==> {
            &&& acc.len() <= out.len()
            &&& out.subrange(0, acc.len() as int) == acc
            &&& sep_rounds(sep, f, s, out.skip(acc.len() as int), t)
            &&& sep_stops(sep, f, t)
        },
    decreases s.data.len(),
{
    lemma_round_progress(sep, f, s);
    let empty = Seq::<<F::Output as DeepView>::V>::empty();
    assert(acc.subrange(0, acc.len() as int) =~= acc);
    assert(acc.skip(acc.len() as int) =~= empty);
    if let Ok((r1, _)) = sep.spec_parse(s) {
        if r1 != s {
            if let Ok((r2, o)) = f.spec_parse(r1) {
                if r2 != s {
                    lemma_separated_loop_rounds(sep, f, r2, acc.push(o));
                    if let Ok((t, out)) = spec_separated_loop(sep, f, r2, acc.push(o)) {
                        let tail = out.skip(acc.len() as int);
                        assert(out.subrange(0, (acc.len() + 1) as int) == acc.push(o));
                        assert(tail[0] == out.subrange(0, (acc.len() + 1) as int)[acc.len() as int]);
                        assert(tail.drop_first() =~= out.skip((acc.len() + 1) as int));
                        assert(out.subrange(0, acc.len() as int) =~= out.subrange(
                            0,
                            (acc.len() + 1) as int,
                        ).subrange(0, acc.len() as int));
                    }
                }
            }
        }
    }
}

/// `separated_list(sep, f)` returns `(t, v)` exactly when either the first
/// element gives an `Error`, `v` is empty and `t` is the start; or `v` is a
/// non-empty list of elements separated by `sep`, in input order, from the
/// start to `t`, where no further round can start.
pub proof fn law_separated_list_is_rounds<'a, E: ParseError<'a>, S: Parser<'a, E>, F: Parser<'a, E>>(
    sep: S,
    f: F,
    s: SpecInput,
    t: SpecInput,
    v: Seq<<F::Output as DeepView>::V>,
)
    ensures
        ((SeparatedList { sep, f }).spec_parse(s) == Ok::<
            (SpecInput, Seq<<F::Output as DeepView>::V>),
            ErrMode<E::V>,
        >((t, v))) <==> ((v.len() == 0 && t == s && f.spec_parse(s) is Err && f.spec_parse(
            s,
        )->Err_0 is Error) || sep_list(sep, f, s, v, t)),
{
    lemma_first_then_rounds(sep, f, s, t, v);
    if v.len() == 0 {
        assert(v =~= Seq::<<F::Output as DeepView>::V>::empty());
    }
}

/// `separated_nonempty_list(sep, f)` returns `(t, v)` exactly when `v` is a
/// non-empty list of elements separated by `sep`, in input order, from the
/// start to `t`, where no further round can start.
pub proof fn law_separated_nonempty_list_is_rounds<'a, E: ParseError<'a>, S: Parser<'a, E>, F: Parser<'a, E>>(
    sep: S,
    f: F,
    s: SpecInput,
    t: SpecInput,
    v: Seq<<F::Output as DeepView>::V>,
)
    ensures
        ((SeparatedNonemptyList { sep, f }).spec_parse(s) == Ok::<
            (SpecInput, Seq<<F::Output as DeepView>::V>),
            ErrMode<E::V>,
        >((t, v))) <==> sep_list(sep, f, s, v, t),
{
    lemma_first_then_rounds(sep, f, s, t, v);
}

/// After a first element that consumes input, the loop of the separated
/// lists returns `(t, v)` exactly when `v` is a list from `s` to `t`.
proof fn lemma_first_then_rounds<'a, E: ParseError<'a>, S: Parser<'a, E>, F: Parser<'a, E>>(
    sep: S,
    f: F,
    s: SpecInput,
    t: SpecInput,
    v: Seq<<F::Output as DeepView>::V>,
)
    ensures
        f.spec_parse(s) matches Ok((r, o)) ==> (r != s ==> ((spec_separated_loop(
            sep,
            f,
            r,
            seq![o],
        ) == Ok::<(SpecInput, Seq<<F::Output as DeepView>::V>), ErrMode<E::V>>((t, v)))
            <==> sep_list(sep, f, s, v, t))),
{
    if let Ok((r, o)) = f.spec_parse(s) {
        if r != s {
            lemma_separated_loop_rounds(sep, f, r, seq![o]);
            if let Ok((t1, out)) = spec_separated_loop(sep, f, r, seq![o]) {
                assert(out[0] == out.subrange(0, 1)[0]);
                assert(out.drop_first() =~= out.skip(1));
            }
            if sep_list(sep, f, s, v, t) {
                lemma_separated_loop_follows(sep, f, r, seq![o], v.drop_first(), t);
                assert(seq![o] + v.drop_first() =~= v);
            }
        }
    }
}

/// Up to `u`, `vals` are the values of successive applications of `f`, each
/// consuming input, at places where `g` fails; the last one ends at `u`.
pub open spec fn till_runs<'a, E: ParseError<'a>, F: Parser<'a, E>, G: Parser<'a, E>>(
    f: F,
    g: G,
    s: SpecInput,
    vals: Seq<<F::Output as DeepView>::V>,
    u: SpecInput,
) -> bool
    decreases vals.len(),
{
    if vals.len() == 0 {
        s == u
    } else {
        &&& g.spec_parse(s) is Err
        &&& f.spec_parse(s) matches Ok((r, o)) && r != s && o == vals[0] && till_runs(
            f,
            g,
            r,
            vals.drop_first(),
            u,
        )
    }
}

proof fn lemma_many_till_loop_follows<'a, E: ParseError<'a>, F: Parser<'a, E>, G: Parser<'a, E>>(
    f: F,
    g: G,
    s: SpecInput,
    acc: Seq<<F::Output as DeepView>::V>,
    vals: Seq<<F::Output as DeepView>::V>,
    u: SpecInput,
)
    requires
        till_runs(f, g, s, vals, u),
        g.spec_parse(u) is Ok,
    ensures
        ({
            let (r, o) = g.spec_parse(u)->Ok_0;
            spec_many_till_loop(f, g, s, acc) == Ok::<
                (SpecInput, (Seq<<F::Output as DeepView>::V>, <G::Output as DeepView>::V)),
                ErrMode<E::V>,
            >((r, (acc + vals, o)))
        }),
    decreases vals.len(),
{
    if vals.len() == 0 {
        assert(acc + vals =~= acc);
    } else {
        if let Ok((r1, o1)) = f.spec_parse(s) {
            lemma_many_till_loop_follows(f, g, r1, acc.push(o1), vals.drop_first(), u);
            assert(acc.push(o1) + vals.drop_first() =~= acc + vals);
        }
    }
}

proof fn lemma_many_till_loop_runs<'a, E: ParseError<'a>, F: Parser<'a, E>, G: Parser<'a, E>>(
    f: F,
    g: G,
    s: SpecInput,
    acc: Seq<<F::Output as DeepView>::V>,
)
    ensures
        spec_many_till_loop(f, g, s, acc) matches Ok((r, (out, o))) ==> {
            &&& acc.len() <= out.len()
            &&& out.subrange(0, acc.len() as int) == acc
            &&& exists|u: SpecInput|
                #[trigger] till_runs(f, g, s, out.skip(acc.len() as int), u) && g.spec_parse(u)
                    == Ok::<(SpecInput, <G::Output as DeepView>::V), ErrMode<E::V>>((r, o))
        },
    decreases s.data.len(),
{
    lemma_progress(f, s);
    let empty = Seq::<<F::Output as DeepView>::V>::empty();
    assert(acc.subrange(0, acc.len() as int) =~= acc);
    assert(acc.skip(acc.len() as int) =~= empty);
    if let Ok((r, (out, o))) = spec_many_till_loop(f, g, s, acc) {
        if g.spec_parse(s) is Ok {
            assert(till_runs(f, g, s, out.skip(acc.len() as int), s));
        } else if let Ok((r1, o1)) = f.spec_parse(s) {
            lemma_many_till_loop_runs(f, g, r1, acc.push(o1));
            let tail = out.skip(acc.len() as int);
            assert(out.subrange(0, (acc.len() + 1) as int) == acc.push(o1));
            assert(tail[0] == out.subrange(0, (acc.len() + 1) as int)[acc.len() as int]);
            assert(tail.drop_first() =~= out.skip((acc.len() + 1) as int));
            assert(out.subrange(0, acc.len() as int) =~= out.subrange(
                0,
                (acc.len() + 1) as int,
            ).subrange(0, acc.len() as int));
            let u = choose|u: SpecInput|
                #[trigger] till_runs(f, g, r1, out.skip((acc.len() + 1) as int), u) && g.spec_parse(u)
                    == Ok::<(SpecInput, <G::Output as DeepView>::V), ErrMode<E::V>>((r, o));
            assert(till_runs(f, g, s, tail, u));
        }
    }
}

/// Wherever the terminator `g` succeeds, `many_till(f, g)` stops there with
/// no values of `f`, whatever `f` would do.
pub proof fn law_many_till_stops_at_terminator<'a, E: ParseError<'a>, F: Parser<'a, E>, G: Parser<'a, E>>(
    f: F,
    g: G,
    s: SpecInput,
)
    ensures
        g.spec_parse(s) matches Ok((r, o)) ==> (ManyTill { f, g }).spec_parse(s) == Ok::<
            (SpecInput, (Seq<<F::Output as DeepView>::V>, <G::Output as DeepView>::V)),
            ErrMode<E::V>,
        >((r, (Seq::empty(), o))),
{
}

/// If `f` applied successively from the start gives `vals`, each time
/// consuming input at a place where `g` fails, and `g` then succeeds at `u`
/// with `(r, o)`, then `many_till(f, g)` returns `(r, (vals, o))`; and every
/// success of `many_till(f, g)` arises so.
pub proof fn law_many_till_is_runs<'a, E: ParseError<'a>, F: Parser<'a, E>, G: Parser<'a, E>>(
    f: F,
    g: G,
    s: SpecInput,
    vals: Seq<<F::Output as DeepView>::V>,
    u: SpecInput,
)
    ensures
        till_runs(f, g, s, vals, u) ==> (g.spec_parse(u) matches Ok((r, o)) ==> (ManyTill {
            f,
            g,
        }).spec_parse(s) == Ok::<
            (SpecInput, (Seq<<F::Output as DeepView>::V>, <G::Output as DeepView>::V)),
            ErrMode<E::V>,
        >((r, (vals, o)))),
        (ManyTill { f, g }).spec_parse(s) matches Ok((r, (out, o))) ==> exists|w: SpecInput|
            #[trigger] till_runs(f, g, s, out, w) && g.spec_parse(w) == Ok::<
                (SpecInput, <G::Output as DeepView>::V),
                ErrMode<E::V>,
            >((r, o)),
{
    let empty = Seq::<<F::Output as DeepView>::V>::empty();
    if till_runs(f, g, s, vals, u) && g.spec_parse(u) is Ok {
        lemma_many_till_loop_follows(f, g, s, empty, vals, u);
        assert(empty + vals =~= vals);
    }
    lemma_many_till_loop_runs(f, g, s, empty);
    if let Ok((r, (out, o))) = spec_many_till_loop(f, g, s, empty) {
        assert(out.skip(0) =~= out);
    }
}

/// `length_value(f, g)` reads a length `len` with `f`; whenever at least
/// `len` bytes follow it (the end of the input included) and `g` succeeds on
/// exactly those bytes, it returns what follows them and `g`'s value.
pub proof fn law_length_value_block<'a, E: ParseError<'a>, F: Parser<'a, E>, G: Parser<'a, E>>(
    f: F,
    g: G,
    s: SpecInput,
)
    where F::Output: IntoLength,
    ensures
        f.spec_parse(s) matches Ok((r, n)) ==> ({
            let len = <F::Output as IntoLength>::spec_into_length(n);
            len <= r.data.len() ==> (g.spec_parse(r.take(len as int)) matches Ok((_, o)) ==> (
            LengthValue { f, g }).spec_parse(s) == Ok::<
                (SpecInput, <G::Output as DeepView>::V),
                ErrMode<E::V>,
            >((r.skip(len as int), o)))
        }),
{
}

/// `length_value(f, g)` asks for more input only where `f` does, or where
/// fewer bytes follow the length than it says, and then asks for that
/// length.
pub proof fn law_length_value_incomplete<'a, E: ParseError<'a>, F: Parser<'a, E>, G: Parser<'a, E>>(
    f: F,
    g: G,
    s: SpecInput,
)
    where F::Output: IntoLength,
    ensures
        (LengthValue { f, g }).spec_parse(s) matches Err(ErrMode::Incomplete(x)) ==> (
        f.spec_parse(s) == Err::<(SpecInput, <F::Output as DeepView>::V), ErrMode<E::V>>(
            ErrMode::Incomplete(x),
        ) || (f.spec_parse(s) matches Ok((r, n)) && r.data.len()
            < <F::Output as IntoLength>::spec_into_length(n) && x == Needed::Size(
            <F::Output as IntoLength>::spec_into_length(n),
        ))),
{
}

/// A repetition of `p` that has reached `t` ends there with what it
/// collected: `p` gives an `Error` at `t`, or asks for more input at `t`
/// where no more input will come.
pub open spec fn many_stops<'a, E: ParseError<'a>, P: Parser<'a, E>>(p: P, t: SpecInput) -> bool {
    ||| (p.spec_parse(t) is Err && p.spec_parse(t)->Err_0 is Error)
    ||| (p.spec_parse(t) is Err && p.spec_parse(t)->Err_0 is Incomplete && t.eof)
}

proof fn lemma_many_loop_follows<'a, E: ParseError<'a>, P: Parser<'a, E>>(
    p: P,
    s: SpecInput,
    acc: Seq<<P::Output as DeepView>::V>,
    vals: Seq<<P::Output as DeepView>::V>,
    t: SpecInput,
    kind: ErrorKind,
)
    requires
        runs(p, s, vals, t),
        many_stops(p, t),
    ensures
        spec_many_loop(p, s, acc, kind) == Ok::<
            (SpecInput, Seq<<P::Output as DeepView>::V>),
            ErrMode<E::V>,
        >((t, acc + vals)),
    decreases vals.len(),
{
    if vals.len() == 0 {
        assert(acc + vals =~= acc);
    } else {
        if let Ok((r, o)) = p.spec_parse(s) {
            lemma_many_loop_follows(p, r, acc.push(o), vals.drop_first(), t, kind);
            assert(acc.push(o) + vals.drop_first() =~= acc + vals);
        }
    }
}

proof fn lemma_many_loop_runs<'a, E: ParseError<'a>, P: Parser<'a, E>>(
    p: P,
    s: SpecInput,
    acc: Seq<<P::Output as DeepView>::V>,
    kind: ErrorKind,
)
    ensures
        spec_many_loop(p, s, acc, kind) matches Ok((t, out)) ==> {
            &&& acc.len() <= out.len()
            &&& out.subrange(0, acc.len() as int) == acc
            &&& runs(p, s, out.skip(acc.len() as int), t)
            &&& many_stops(p, t)
        },
    decreases s.data.len(),
{
    lemma_progress(p, s);
    let empty = Seq::<<P::Output as DeepView>::V>::empty();
    assert(acc.subrange(0, acc.len() as int) =~= acc);
    assert(acc.skip(acc.len() as int) =~= empty);
    if let Ok((r, o)) = p.spec_parse(s) {
        if r != s {
            lemma_many_loop_runs(p, r, acc.push(o), kind);
            if let Ok((t, out)) = spec_many_loop(p, r, acc.push(o), kind) {
                let tail = out.skip(acc.len() as int);
                assert(out.subrange(0, (acc.len() + 1) as int) == acc.push(o));
                assert(tail[0] == out.subrange(0, (acc.len() + 1) as int)[acc.len() as int]);
                assert(tail.drop_first() =~= out.skip((acc.len() + 1) as int));
                assert(out.subrange(0, acc.len() as int) =~= out.subrange(
                    0,
                    (acc.len() + 1) as int,
                ).subrange(0, acc.len() as int));
            }
        }
    }
}

/// `many0(f)` returns `(t, v)` exactly when `v` are the values of successive
/// applications of `f` from the start, in input order, each consuming input,
/// ending at `t`, where the repetition ends.
pub proof fn law_many0_is_runs<'a, E: ParseError<'a>, P: Parser<'a, E>>(
    p: P,
    s: SpecInput,
    t: SpecInput,
    v: Seq<<P::Output as DeepView>::V>,
)
    ensures
        ((Many0 { parser: p }).spec_parse(s) == Ok::<
            (SpecInput, Seq<<P::Output as DeepView>::V>),
            ErrMode<E::V>,
        >((t, v))) <==> (runs(p, s, v, t) && many_stops(p, t)),
{
    let empty = Seq::<<P::Output as DeepView>::V>::empty();
    lemma_many_loop_runs(p, s, empty, ErrorKind::Many0);
    if let Ok((t1, out)) = spec_many_loop(p, s, empty, ErrorKind::Many0) {
        assert(out.skip(0) =~= out);
    }
    if runs(p, s, v, t) && many_stops(p, t) {
        lemma_many_loop_follows(p, s, empty, v, t, ErrorKind::Many0);
        assert(empty + v =~= v);
    }
}

/// `many1(f)` returns `(t, v)` exactly when `v` is non-empty and holds the
/// values of successive applications of `f` from the start, in input order,
/// each consuming input, ending at `t`, where the repetition ends.
pub proof fn law_many1_is_runs<'a, E: ParseError<'a>, P: Parser<'a, E>>(
    p: P,
    s: SpecInput,
    t: SpecInput,
    v: Seq<<P::Output as DeepView>::V>,
)
    ensures
        ((Many1 { parser: p }).spec_parse(s) == Ok::<
            (SpecInput, Seq<<P::Output as DeepView>::V>),
            ErrMode<E::V>,
        >((t, v))) <==> (v.len() > 0 && runs(p, s, v, t) && many_stops(p, t)),
{
    lemma_progress(p, s);
    if let Ok((r, o)) = p.spec_parse(s) {
        lemma_many_loop_runs(p, r, seq![o], ErrorKind::Many1);
        if let Ok((t1, out)) = spec_many_loop(p, r, seq![o], ErrorKind::Many1) {
            assert(r != s);
            assert(out[0] == out.subrange(0, 1)[0]);
            assert(out.drop_first() =~= out.skip(1));
        }
        if v.len() > 0 && runs(p, s, v, t) && many_stops(p, t) {
            lemma_many_loop_follows(p, r, seq![o], v.drop_first(), t, ErrorKind::Many1);
            assert(seq![o] + v.drop_first() =~= v);
        }
    }
}

/// Where `f`, applied successively from the start, gives `v`, each time
/// consuming input, and then gives an `Error` at `t`, `many0_count(f)`
/// returns `(t, v.len())`.
pub proof fn law_many0_count_counts_runs<'a, E: ParseError<'a>, P: Parser<'a, E>>(
    p: P,
    s: SpecInput,
    t: SpecInput,
    v: Seq<<P::Output as DeepView>::V>,
)
    ensures
        runs(p, s, v, t) && p.spec_parse(t) is Err && p.spec_parse(t)->Err_0 is Error ==> (
        Many0Count { parser: p }).spec_parse(s) == Ok::<(SpecInput, usize), ErrMode<E::V>>(
            (t, v.len() as usize),
        ),
{
    if runs(p, s, v, t) && p.spec_parse(t) is Err && p.spec_parse(t)->Err_0 is Error {
        law_many0_is_runs(p, s, t, v);
        law_many0_count_is_len_of_many0(p, s);
    }
}

/// Where `f`, applied successively from the start, gives `v`, each time
/// consuming input, and then gives an `Error` at `t`, `fold_many0(f, init,
/// g)` returns `t` and `g` folded over `v` from the left, starting at
/// `init`.
pub proof fn law_fold_many0_folds_runs<'a, E: ParseError<'a>, P: Parser<'a, E>, R: DeepView, G: Accumulate<R, P::Output>>(
    p: P,
    init: R,
    g: G,
    s: SpecInput,
    t: SpecInput,
    v: Seq<<P::Output as DeepView>::V>,
)
    ensures
        runs(p, s, v, t) && p.spec_parse(t) is Err && p.spec_parse(t)->Err_0 is Error
            ==> spec_fold_many0(p, init, g, s) == Ok::<(SpecInput, R::V), ErrMode<E::V>>(
            (
                t,
                v.fold_left(
                    init.deep_view(),
                    |b: R::V, x: <P::Output as DeepView>::V| g.spec_accumulate(b, x),
                ),
            ),
        ),
{
    if runs(p, s, v, t) && p.spec_parse(t) is Err && p.spec_parse(t)->Err_0 is Error {
        law_many0_is_runs(p, s, t, v);
        law_fold_many0_is_fold_of_many0(p, init, g, s);
    }
}

/// Where `f`, applied successively from the start, gives a non-empty `v`,
/// each time consuming input, and then gives an `Error` at `t`,
/// `fold_many1(f, init, g)` returns `t` and `g` folded over `v` from the
/// left, starting at `init`.
pub proof fn law_fold_many1_folds_runs<'a, E: ParseError<'a>, P: Parser<'a, E>, R: DeepView, G: Accumulate<R, P::Output>>(
    p: P,
    init: R,
    g: G,
    s: SpecInput,
    t: SpecInput,
    v: Seq<<P::Output as DeepView>::V>,
)
    ensures
        v.len() > 0 && runs(p, s, v, t) && p.spec_parse(t) is Err && p.spec_parse(t)->Err_0 is Error
            ==> spec_fold_many1(p, init, g, s) == Ok::<(SpecInput, R::V), ErrMode<E::V>>(
            (
                t,
                v.fold_left(
                    init.deep_view(),
                    |b: R::V, x: <P::Output as DeepView>::V| g.spec_accumulate(b, x),
                ),
            ),
        ),
{
    if v.len() > 0 && runs(p, s, v, t) && p.spec_parse(t) is Err && p.spec_parse(t)->Err_0 is Error {
        law_fold_many0_folds_runs(p, init, g, s, t, v);
        law_fold_many1_is_fold_many0_when_first_consumes(p, init, g, s);
    }
}

proof fn lemma_many1_count_loop_follows<'a, E: ParseError<'a>, P: Parser<'a, E>>(
    p: P,
    s: SpecInput,
    c: nat,
    vals: Seq<<P::Output as DeepView>::V>,
    t: SpecInput,
)
    requires
        runs(p, s, vals, t),
        (p.spec_parse(t) is Err && p.spec_parse(t)->Err_0 is Error) || (p.spec_parse(t) matches Ok((
            r,
            _,
        )) && r == t),
    ensures
        spec_many1_count_loop(p, s, c) == Ok::<(SpecInput, nat), ErrMode<E::V>>(
            (t, c + vals.len()),
        ),
    decreases vals.len(),
{
    if vals.len() > 0 {
        if let Ok((r, o)) = p.spec_parse(s) {
            lemma_many1_count_loop_follows(p, r, c + 1, vals.drop_first(), t);
        }
    }
}

/// Where `f`, applied successively from the start, gives a non-empty `v`,
/// each time consuming input, and then gives an `Error` or consumes nothing
/// at `t`, `many1_count(f)` returns `(t, v.len())`.
pub proof fn law_many1_count_counts_runs<'a, E: ParseError<'a>, P: Parser<'a, E>>(
    p: P,
    s: SpecInput,
    t: SpecInput,
    v: Seq<<P::Output as DeepView>::V>,
)
    ensures
        v.len() > 0 && runs(p, s, v, t) && ((p.spec_parse(t) is Err && p.spec_parse(t)->Err_0 is Error)
            || (p.spec_parse(t) matches Ok((r, _)) && r == t)) ==> (Many1Count { parser: p }).spec_parse(
            s,
        ) == Ok::<(SpecInput, usize), ErrMode<E::V>>((t, v.len() as usize)),
{
    if v.len() > 0 && runs(p, s, v, t) && ((p.spec_parse(t) is Err && p.spec_parse(t)->Err_0 is Error)
        || (p.spec_parse(t) matches Ok((r, _)) && r == t)) {
        if let Ok((r, o)) = p.spec_parse(s) {
            lemma_many1_count_loop_follows(p, r, 1, v.drop_first(), t);
        }
    }
}

proof fn lemma_fold_m_n_loop_follows<'a, E: ParseError<'a>, P: Parser<'a, E>, R: DeepView, G: Accumulate<R, P::Output>>(
    p: P,
    g: G,
    step: spec_fn(R::V, <P::Output as DeepView>::V) -> R::V,
    m: nat,
    n: nat,
    s0: SpecInput,
    s: SpecInput,
    a: R::V,
    count: nat,
    vals: Seq<<P::Output as DeepView>::V>,
    t: SpecInput,
)
    requires
        forall|b: R::V, x: <P::Output as DeepView>::V| #[trigger] step(b, x) == g.spec_accumulate(b, x),
        runs(p, s, vals, t),
        m <= count + vals.len() <= n,
        m_n_stops_at(p, t, count + vals.len(), n),
    ensures
        spec_fold_m_n_loop(p, g, m, n, s0, s, a, count) == Ok::<(SpecInput, R::V), ErrMode<E::V>>(
            (t, vals.fold_left_alt(a, step)),
        ),
    decreases vals.len(),
{
    if vals.len() > 0 {
        if let Ok((r, o)) = p.spec_parse(s) {
            lemma_fold_m_n_loop_follows(
                p,
                g,
                step,
                m,
                n,
                s0,
                r,
                g.spec_accumulate(a, o),
                count + 1,
                vals.drop_first(),
                t,
            );
            assert(vals.drop_first() =~= vals.subrange(1, vals.len() as int));
        }
    }
}

/// Where `f`, applied successively from the start, gives `v`, each time
/// consuming input, ending at `t` with `m <= v.len() <= n`, and the
/// repetition goes no further there, `fold_many_m_n(m, n, f, init, g)`
/// returns `t` and `g` folded over `v` from the left, starting at `init`.
pub proof fn law_fold_many_m_n_folds_runs<'a, E: ParseError<'a>, P: Parser<'a, E>, R: DeepView, G: Accumulate<R, P::Output>>(
    m: usize,
    n: usize,
    p: P,
    init: R,
    g: G,
    s: SpecInput,
    t: SpecInput,
    v: Seq<<P::Output as DeepView>::V>,
)
    ensures
        runs(p, s, v, t) && m <= v.len() <= n && m_n_stops_at(p, t, v.len(), n as nat)
            ==> spec_fold_many_m_n(m, n, p, init, g, s) == Ok::<(SpecInput, R::V), ErrMode<E::V>>(
            (
                t,
                v.fold_left(
                    init.deep_view(),
                    |b: R::V, x: <P::Output as DeepView>::V| g.spec_accumulate(b, x),
                ),
            ),
        ),
{
    let step = |b: R::V, x: <P::Output as DeepView>::V| g.spec_accumulate(b, x);
    if runs(p, s, v, t) && m <= v.len() <= n && m_n_stops_at(p, t, v.len(), n as nat) {
        lemma_fold_m_n_loop_follows(p, g, step, m as nat, n as nat, s, s, init.deep_view(), 0, v, t);
        v.lemma_fold_left_alt(init.deep_view(), step);
    }
}

} // verus!

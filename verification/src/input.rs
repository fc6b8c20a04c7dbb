//! Byte inputs, parser results and their models, and the [`Parser`] trait
//! that the combinators are built on.

use vstd::prelude::*;
use crate::error::{ErrMode, ErrorKind, Needed, ParseError};

verus! {

/// A position in a byte buffer.
///
/// `data` is what is left to parse.  `eof` says whether `data` is all the
/// input there will ever be: a parser that runs out of bytes on such an input
/// fails with an error instead of asking for more.
#[derive(Clone, Copy, Debug, PartialEq, Eq)]
pub struct Input<'a> {
    pub data: &'a [u8],
    pub eof: bool,
}

/// The mathematical model of an [`Input`].
#[verifier::ext_equal]
pub struct SpecInput {
    pub data: Seq<u8>,
    pub eof: bool,
}

impl<'a> View for Input<'a> {
    type V = SpecInput;

    open spec fn view(&self) -> SpecInput {
        SpecInput { data: self.data@, eof: self.eof }
    }
}

impl SpecInput {
    /// What fits in memory: a byte slice is never longer than `isize::MAX`.
    pub open spec fn wf(self) -> bool {
        self.data.len() <= isize::MAX
    }

    /// `self` is what is left of `whole` after some bytes were consumed
    /// from its front.
    pub open spec fn is_suffix_of(self, whole: SpecInput) -> bool {
        &&& self.eof == whole.eof
        &&& self.data.len() <= whole.data.len()
        &&& self.data =~= whole.data.skip(whole.data.len() - self.data.len())
    }

    /// The first `n` bytes, keeping the end-of-input flag.
    pub open spec fn take(self, n: int) -> SpecInput {
        SpecInput { data: self.data.take(n), eof: self.eof }
    }

    /// Everything after the first `n` bytes, keeping the end-of-input flag.
    pub open spec fn skip(self, n: int) -> SpecInput {
        SpecInput { data: self.data.skip(n), eof: self.eof }
    }
}

impl<'a> Input<'a> {
    /// An input that may be followed by more bytes later.
    pub fn streaming(data: &'a [u8]) -> (r: Input<'a>)
        ensures
            r@ == (SpecInput { data: data@, eof: false }),
    {
        Input { data, eof: false }
    }

    /// An input that is all there is.
    pub fn complete(data: &'a [u8]) -> (r: Input<'a>)
        ensures
            r@ == (SpecInput { data: data@, eof: true }),
    {
        Input { data, eof: true }
    }

    /// Whether no more bytes will follow `data`.
    pub fn at_eof(&self) -> (r: bool)
        ensures
            r == self@.eof,
    {
        self.eof
    }

    /// The number of bytes left.
    pub fn input_len(&self) -> (r: usize)
        ensures
            r == self@.data.len(),
    {
        self.data.len()
    }

    /// Splits off the first `n` bytes: returns `(rest, prefix)`.
    pub fn take_split(&self, n: usize) -> (r: (Input<'a>, Input<'a>))
        requires
            n <= self@.data.len(),
        ensures
            r.0@ == self@.skip(n as int),
            r.1@ == self@.take(n as int),
    {
        let len = self.data.len();
        let rest = vstd::slice::slice_subrange(self.data, n, len);
        let prefix = vstd::slice::slice_subrange(self.data, 0, n);
        (Input { data: rest, eof: self.eof }, Input { data: prefix, eof: self.eof })
    }
}

/// Compares two inputs by content, as `==` on inputs does.
pub fn same_input(a: &Input, b: &Input) -> (r: bool)
    ensures
        r == (a@ == b@),
{
    if a.eof != b.eof {
        return false;
    }
    let n = a.data.len();
    if n != b.data.len() {
        assert(a@.data.len() != b@.data.len());
        return false;
    }
    let mut k: usize = 0;
    while k < n
        invariant
            n == a@.data.len(),
            n == b@.data.len(),
            0 <= k <= n,
            forall|j: int| 0 <= j < k ==> a@.data[j] == b@.data[j],
        decreases n - k,
    {
        if a.data[k] != b.data[k] {
            assert(a@.data[k as int] != b@.data[k as int]);
            return false;
        }
        k = k + 1;
    }
    assert(a@.data =~= b@.data);
    true
}

/// The result of running a parser: the rest of the input and a value, or
/// how it failed.
pub type IResult<'a, O, E> = Result<(Input<'a>, O), ErrMode<E>>;

/// The model of an [`IResult`], over the views of its parts.
pub type SpecResult<V, EV> = Result<(SpecInput, V), ErrMode<EV>>;

pub open spec fn view_err_mode<E: View>(e: ErrMode<E>) -> ErrMode<E::V> {
    match e {
        ErrMode::Incomplete(n) => ErrMode::Incomplete(n),
        ErrMode::Error(e) => ErrMode::Error(e@),
        ErrMode::Failure(e) => ErrMode::Failure(e@),
    }
}

/// The model of a parser's result: the rest and the error by their views,
/// the value by its deep view.
pub open spec fn view_result<O: DeepView, E: View>(r: IResult<O, E>) -> SpecResult<O::V, E::V> {
    match r {
        Ok((rest, o)) => Ok((rest@, o.deep_view())),
        Err(e) => Err(view_err_mode(e)),
    }
}

/// The result of `need_more(input, needed)`.
pub open spec fn spec_need_more<'a, V, E: ParseError<'a>>(input: SpecInput, needed: Needed) -> SpecResult<
    V,
    E::V,
> {
    if input.eof {
        Err(ErrMode::Error(E::spec_from_error_kind(input, ErrorKind::Eof)))
    } else {
        Err(ErrMode::Incomplete(needed))
    }
}

/// Asks for more input, or fails with an error of kind `Eof` where no more
/// input will come.
pub fn need_more<'a, O: DeepView, E: ParseError<'a>>(input: Input<'a>, needed: Needed) -> (r: IResult<
    'a,
    O,
    E,
>)
    ensures
        view_result(r) == spec_need_more::<O::V, E>(input@, needed),
{
    if input.at_eof() {
        Err(ErrMode::Error(E::from_error_kind(input, ErrorKind::Eof)))
    } else {
        Err(ErrMode::Incomplete(needed))
    }
}

/// A successful result only ever hands back what is left of its input.
pub open spec fn consumes<V, EV>(input: SpecInput, r: SpecResult<V, EV>) -> bool {
    r matches Ok((rest, _)) ==> rest.is_suffix_of(input)
}

/// A parser of byte inputs, reporting errors of type `E`.
///
/// `spec_parse` is what the parser computes, as a function of the model of
/// its input; `parse` computes it.  Every parser only consumes input: what it
/// returns as the rest is a suffix of what it was given.
pub trait Parser<'a, E: ParseError<'a>> {
    type Output: DeepView;

    spec fn spec_parse(&self, input: SpecInput) -> SpecResult<<Self::Output as DeepView>::V, E::V>;

    proof fn lemma_parse_consumes(&self, input: SpecInput)
        ensures
            consumes(input, self.spec_parse(input)),
    ;

    fn parse(&self, input: Input<'a>) -> (r: IResult<'a, Self::Output, E>)
        requires
            input@.wf(),
        ensures
            view_result(r) == self.spec_parse(input@),
    ;
}

} // verus!

//! A few elementary parsers to build repetitions from.

use vstd::prelude::*;
use crate::input::{Input, SpecInput, IResult, SpecResult, Parser, spec_need_more, need_more};
use crate::error::{ErrMode, ErrorKind, Needed, ParseError};

verus! {

/// Recognizes a fixed byte string at the front of the input.
pub struct Tag {
    pub tag: Vec<u8>,
}

/// Recognizes `tag` at the front of the input.
pub fn tag(bytes: Vec<u8>) -> (r: Tag)
    ensures
        r.tag@ == bytes@,
{
    Tag { tag: bytes }
}

/// What [`Tag`] computes: a mismatch in the bytes both have is an error; an
/// input that is a proper prefix of the tag needs more; otherwise the tag is
/// consumed and returned.
pub open spec fn spec_tag<'a, E: ParseError<'a>>(tag: Seq<u8>, input: SpecInput) -> SpecResult<Seq<u8>, E::V> {
    let k = if tag.len() < input.data.len() { tag.len() } else { input.data.len() };
    if input.data.take(k as int) != tag.take(k as int) {
        Err(ErrMode::Error(E::spec_from_error_kind(input, ErrorKind::Tag)))
    } else if input.data.len() < tag.len() {
        spec_need_more::<_, E>(input, Needed::Size(tag.len() as usize))
    } else {
        Ok((input.skip(tag.len() as int), input.data.take(tag.len() as int)))
    }
}

impl<'a, E: ParseError<'a>> Parser<'a, E> for Tag {
    type Output = &'a [u8];

    open spec fn spec_parse(&self, input: SpecInput) -> SpecResult<Seq<u8>, E::V> {
        spec_tag::<E>(self.tag@, input)
    }

    proof fn lemma_parse_consumes(&self, input: SpecInput) {
        let n = self.tag@.len();
        if n <= input.data.len() {
            assert(input.skip(n as int).data =~= input.data.skip(input.data.len() - (input.data.len() - n)));
        }
    }

    fn parse(&self, input: Input<'a>) -> (r: IResult<'a, &'a [u8], E>) {
        let tlen = self.tag.len();
        let ilen = input.data.len();
        let k = if tlen < ilen { tlen } else { ilen };
        let mut j: usize = 0;
        while j < k
            invariant
                k <= tlen,
                k <= ilen,
                tlen == self.tag@.len(),
                ilen == input@.data.len(),
                j <= k,
                forall|q: int| 0 <= q < j ==> input@.data[q] == self.tag@[q],
            decreases k - j,
        {
            if input.data[j] != self.tag[j] {
                assert(input@.data.take(k as int)[j as int] != self.tag@.take(k as int)[j as int]);
                return Err(ErrMode::Error(E::from_error_kind(input, ErrorKind::Tag)));
            }
            j = j + 1;
        }
        assert(input@.data.take(k as int) =~= self.tag@.take(k as int));
        if ilen < tlen {
            return need_more(input, Needed::Size(tlen));
        }
        let (rest, taken) = input.take_split(tlen);
        let r: IResult<'a, &'a [u8], E> = Ok((rest, taken.data));
        assert(taken.data.deep_view() =~= input@.data.take(tlen as int));
        r
    }
}

/// Takes a fixed number of bytes.
pub struct Take {
    pub count: usize,
}

/// Takes `count` bytes.
pub fn take(count: usize) -> (r: Take)
    ensures
        r.count == count,
{
    Take { count }
}

/// What [`Take`] computes.
pub open spec fn spec_take<'a, E: ParseError<'a>>(count: usize, input: SpecInput) -> SpecResult<Seq<u8>, E::V> {
    if input.data.len() < count {
        spec_need_more::<_, E>(input, Needed::Size(count))
    } else {
        Ok((input.skip(count as int), input.data.take(count as int)))
    }
}

impl<'a, E: ParseError<'a>> Parser<'a, E> for Take {
    type Output = &'a [u8];

    open spec fn spec_parse(&self, input: SpecInput) -> SpecResult<Seq<u8>, E::V> {
        spec_take::<E>(self.count, input)
    }

    proof fn lemma_parse_consumes(&self, input: SpecInput) {
        let n = self.count;
        if n <= input.data.len() {
            assert(input.skip(n as int).data =~= input.data.skip(input.data.len() - (input.data.len() - n)));
        }
    }

    fn parse(&self, input: Input<'a>) -> (r: IResult<'a, &'a [u8], E>) {
        if input.input_len() < self.count {
            return need_more(input, Needed::Size(self.count));
        }
        let (rest, taken) = input.take_split(self.count);
        let r: IResult<'a, &'a [u8], E> = Ok((rest, taken.data));
        assert(taken.data.deep_view() =~= input@.data.take(self.count as int));
        r
    }
}

/// Reads one byte as an unsigned number.
pub struct BeU8;

/// Reads one byte as an unsigned number.
pub fn be_u8() -> (r: BeU8) {
    BeU8
}

/// What [`BeU8`] computes.
pub open spec fn spec_be_u8<'a, E: ParseError<'a>>(input: SpecInput) -> SpecResult<u8, E::V> {
    if input.data.len() < 1 {
        spec_need_more::<_, E>(input, Needed::Size(1))
    } else {
        Ok((input.skip(1), input.data[0]))
    }
}

impl<'a, E: ParseError<'a>> Parser<'a, E> for BeU8 {
    type Output = u8;

    open spec fn spec_parse(&self, input: SpecInput) -> SpecResult<u8, E::V> {
        spec_be_u8::<E>(input)
    }

    proof fn lemma_parse_consumes(&self, input: SpecInput) {
        if 1 <= input.data.len() {
            assert(input.skip(1).data =~= input.data.skip(input.data.len() - (input.data.len() - 1)));
        }
    }

    fn parse(&self, input: Input<'a>) -> (r: IResult<'a, u8, E>) {
        if input.input_len() < 1 {
            return need_more(input, Needed::Size(1));
        }
        let b = input.data[0];
        let (rest, _taken) = input.take_split(1);
        Ok((rest, b))
    }
}

/// Turns the recoverable errors of a parser into failures.
pub struct Cut<P> {
    pub parser: P,
}

/// Makes every `Error` of `parser` a `Failure`.
pub fn cut<P>(parser: P) -> (r: Cut<P>)
    ensures
        r.parser == parser,
{
    Cut { parser }
}

/// What [`Cut`] computes from the result of its parser.
pub open spec fn spec_cut<V, EV>(r: SpecResult<V, EV>) -> SpecResult<V, EV> {
    match r {
        Err(ErrMode::Error(e)) => Err(ErrMode::Failure(e)),
        other => other,
    }
}

impl<'a, E: ParseError<'a>, P: Parser<'a, E>> Parser<'a, E> for Cut<P> {
    type Output = P::Output;

    open spec fn spec_parse(&self, input: SpecInput) -> SpecResult<<P::Output as DeepView>::V, E::V> {
        spec_cut(self.parser.spec_parse(input))
    }

    proof fn lemma_parse_consumes(&self, input: SpecInput) {
        self.parser.lemma_parse_consumes(input);
    }

    fn parse(&self, input: Input<'a>) -> (r: IResult<'a, P::Output, E>) {
        match self.parser.parse(input) {
            Err(ErrMode::Error(e)) => Err(ErrMode::Failure(e)),
            other => other,
        }
    }
}

} // verus!

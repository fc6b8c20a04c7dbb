use nom::error::{ErrMode, Error, ErrorKind, Needed, VerboseError};
use nom::input::{IResult, Input, Parser};
use nom::multi::{
    count, fold_many0, fold_many1, fold_many1c, fold_many_m_n, fold_many_m_nc, length_value,
    length_valuec, many0, many0_count, many0_countc, many0c, many1, many1_count, many1_countc,
    many1c, many_m_n, many_m_nc, many_till, many_tillc, separated_list, separated_listc,
    separated_nonempty_list, separated_nonempty_listc, Push,
};
use nom::multi::IntoLength;
use nom::primitives::{be_u8, cut, tag, take};

fn done(b: &[u8]) -> Input<'_> {
    Input::complete(b)
}

fn more(b: &[u8]) -> Input<'_> {
    Input::streaming(b)
}

fn err(input: Input<'_>, kind: ErrorKind) -> Error<'_> {
    Error { input, kind }
}

fn run<'a, P: Parser<'a, Error<'a>>>(p: P, input: Input<'a>) -> IResult<'a, P::Output, Error<'a>> {
    p.parse(input)
}

fn t(b: &[u8]) -> nom::primitives::Tag {
    tag(b.to_vec())
}

// ---- many0 ----

#[test]
fn many0_collects_until_error() {
    let r = run(many0(t(b"abcd")), done(b"abcdabcdefgh"));
    assert_eq!(r, Ok((done(b"efgh"), vec![&b"abcd"[..], &b"abcd"[..]])));
}

#[test]
fn many0_zero_items() {
    let r = run(many0(t(b"abcd")), done(b"azerty"));
    assert_eq!(r, Ok((done(b"azerty"), vec![])));
}

#[test]
fn many0_incomplete_on_streaming() {
    let r = run(many0(t(b"abcd")), more(b"abcdab"));
    assert_eq!(r, Err(ErrMode::Incomplete(Needed::Size(4))));
}

#[test]
fn many0_incomplete_on_complete_input_ends() {
    let r = run(many0(t(b"abcd")), done(b"abcdab"));
    assert_eq!(r, Ok((done(b"ab"), vec![&b"abcd"[..]])));
}

#[test]
fn many0_rejects_parser_that_consumes_nothing() {
    let r = run(many0(t(b"")), done(b"abc"));
    assert_eq!(r, Err(ErrMode::Error(err(done(b"abc"), ErrorKind::Many0))));
}

#[test]
fn many0_passes_failure_on() {
    let r = run(many0(cut(t(b"ab"))), done(b"abx"));
    assert_eq!(r, Err(ErrMode::Failure(err(done(b"x"), ErrorKind::Tag))));
}

#[test]
fn many0c_runs_many0() {
    let r: IResult<'_, _, Error> = many0c(done(b"ababc"), t(b"ab"));
    assert_eq!(r, Ok((done(b"c"), vec![&b"ab"[..], &b"ab"[..]])));
}

// ---- many1 ----

#[test]
fn many1_collects() {
    let r = run(many1(t(b"abcd")), done(b"abcdabcdefgh"));
    assert_eq!(r, Ok((done(b"efgh"), vec![&b"abcd"[..], &b"abcd"[..]])));
}

#[test]
fn many1_needs_one() {
    let r = run(many1(t(b"abcd")), done(b"azerty"));
    assert_eq!(r, Err(ErrMode::Error(err(done(b"azerty"), ErrorKind::Many1))));
}

#[test]
fn many1_first_incomplete_is_error() {
    let r = run(many1(t(b"abcd")), more(b"ab"));
    assert_eq!(r, Err(ErrMode::Error(err(more(b"ab"), ErrorKind::Many1))));
}

#[test]
fn many1_rejects_parser_that_consumes_nothing() {
    let r = run(many1(t(b"")), done(b"x"));
    assert_eq!(r, Err(ErrMode::Error(err(done(b"x"), ErrorKind::Many1))));
}

#[test]
fn many1c_runs_many1() {
    let r: IResult<'_, _, Error> = many1c(done(b"abx"), t(b"ab"));
    assert_eq!(r, Ok((done(b"x"), vec![&b"ab"[..]])));
}

// ---- many_till ----

#[test]
fn many_till_stops_at_terminator() {
    let r = run(many_till(t(b"abcd"), t(b"efgh")), done(b"abcdabcdefghabcd"));
    assert_eq!(
        r,
        Ok((done(b"abcd"), (vec![&b"abcd"[..], &b"abcd"[..]], &b"efgh"[..])))
    );
}

#[test]
fn many_till_error_of_f() {
    let r = run(many_till(t(b"abcd"), t(b"efgh")), done(b"abcdintro"));
    assert_eq!(r, Err(ErrMode::Error(err(done(b"intro"), ErrorKind::Tag))));
}

#[test]
fn many_till_no_progress() {
    let r = run(many_till(t(b""), t(b"efgh")), done(b"abcd"));
    assert_eq!(r, Err(ErrMode::Error(err(done(b"abcd"), ErrorKind::ManyTill))));
}

#[test]
fn many_till_passes_incomplete_of_f() {
    let r = run(many_till(t(b"abcd"), t(b"efgh")), more(b"abcdab"));
    assert_eq!(r, Err(ErrMode::Incomplete(Needed::Size(4))));
}

#[test]
fn many_tillc_runs_many_till() {
    let r: IResult<'_, _, Error> = many_tillc(done(b"aab"), t(b"a"), t(b"b"));
    assert_eq!(r, Ok((done(b""), (vec![&b"a"[..], &b"a"[..]], &b"b"[..]))));
}

// ---- separated_list ----

#[test]
fn separated_list_collects() {
    let r = run(separated_list(t(b","), t(b"abc")), done(b"abc,abc,abcd"));
    assert_eq!(r, Ok((done(b"d"), vec![&b"abc"[..], &b"abc"[..], &b"abc"[..]])));
}

#[test]
fn separated_list_stops_before_bad_element() {
    let r = run(separated_list(t(b","), t(b"abc")), done(b"abc,def"));
    assert_eq!(r, Ok((done(b",def"), vec![&b"abc"[..]])));
}

#[test]
fn separated_list_empty() {
    let r = run(separated_list(t(b","), t(b"abc")), done(b""));
    assert_eq!(r, Ok((done(b""), vec![])));
}

#[test]
fn separated_list_incomplete() {
    let r = run(separated_list(t(b","), t(b"abc")), more(b"ab"));
    assert_eq!(r, Err(ErrMode::Incomplete(Needed::Size(3))));
}

#[test]
fn separated_list_first_consumes_nothing() {
    let r = run(separated_list(t(b","), t(b"")), done(b"abc"));
    assert_eq!(r, Err(ErrMode::Error(err(done(b"abc"), ErrorKind::SeparatedList))));
}

#[test]
fn separated_list_separator_consumes_nothing() {
    let r = run(separated_list(t(b""), t(b"abc")), done(b"abcabc"));
    assert_eq!(r, Ok((done(b"abc"), vec![&b"abc"[..]])));
}

#[test]
fn separated_listc_runs_separated_list() {
    let r: IResult<'_, _, Error> = separated_listc(done(b"a;a"), t(b";"), t(b"a"));
    assert_eq!(r, Ok((done(b""), vec![&b"a"[..], &b"a"[..]])));
}

#[test]
fn separated_nonempty_list_collects() {
    let r = run(separated_nonempty_list(t(b","), t(b"abc")), done(b"abc,abc;"));
    assert_eq!(r, Ok((done(b";"), vec![&b"abc"[..], &b"abc"[..]])));
}

#[test]
fn separated_nonempty_list_needs_one() {
    let r = run(separated_nonempty_list(t(b","), t(b"abc")), done(b"def"));
    assert_eq!(r, Err(ErrMode::Error(err(done(b"def"), ErrorKind::Tag))));
}

#[test]
fn separated_nonempty_listc_runs_it() {
    let r: IResult<'_, _, Error> = separated_nonempty_listc(done(b"a"), t(b";"), t(b"a"));
    assert_eq!(r, Ok((done(b""), vec![&b"a"[..]])));
}

// ---- many_m_n ----

#[test]
fn many_m_n_too_few() {
    let r = run(many_m_n(2, 4, t(b"abcd")), done(b"abcdefgh"));
    assert_eq!(r, Err(ErrMode::Error(err(done(b"abcdefgh"), ErrorKind::ManyMN))));
}

#[test]
fn many_m_n_between() {
    let r = run(many_m_n(2, 4, t(b"abcd")), done(b"abcdabcdefgh"));
    assert_eq!(r, Ok((done(b"efgh"), vec![&b"abcd"[..], &b"abcd"[..]])));
}

#[test]
fn many_m_n_stops_at_n() {
    let r = run(many_m_n(2, 4, t(b"abcd")), done(b"abcdabcdabcdabcdabcdefgh"));
    assert_eq!(
        r,
        Ok((done(b"abcdefgh"), vec![&b"abcd"[..], &b"abcd"[..], &b"abcd"[..], &b"abcd"[..]]))
    );
}

#[test]
fn many_m_n_incomplete() {
    let r = run(many_m_n(2, 4, t(b"abcd")), more(b"abcdab"));
    assert_eq!(r, Err(ErrMode::Incomplete(Needed::Size(4))));
}

#[test]
fn many_m_n_complete_input_runs_out() {
    let r = run(many_m_n(2, 4, t(b"abcd")), done(b"abcdab"));
    assert_eq!(r, Err(ErrMode::Error(err(done(b"abcdab"), ErrorKind::ManyMN))));
}

#[test]
fn many_m_n_lower_bound_above_upper() {
    let r = run(many_m_n(3, 2, t(b"abcd")), done(b"abcdabcdabcd"));
    assert_eq!(r, Err(ErrMode::Error(err(done(b"abcdabcdabcd"), ErrorKind::Eof))));
}

#[test]
fn many_m_n_failure() {
    let r = run(many_m_n(0, 4, cut(t(b"ab"))), done(b"abx"));
    assert_eq!(r, Err(ErrMode::Failure(err(done(b"x"), ErrorKind::Tag))));
}

#[test]
fn many_m_nc_runs_many_m_n() {
    let r: IResult<'_, _, Error> = many_m_nc(done(b"aaa"), 1, 2, t(b"a"));
    assert_eq!(r, Ok((done(b"a"), vec![&b"a"[..], &b"a"[..]])));
}

// ---- many0_count / many1_count ----

#[test]
fn many0_count_counts() {
    let r = run(many0_count(t(b"abc")), done(b"abcabcabcdef"));
    assert_eq!(r, Ok((done(b"def"), 3)));
}

#[test]
fn many0_count_streaming_end() {
    let r = run(many0_count(t(b"abc")), more(b"abc"));
    assert_eq!(r, Err(ErrMode::Incomplete(Needed::Size(3))));
}

#[test]
fn many0_count_no_progress_complete() {
    let r = run(many0_count(t(b"")), done(b"x"));
    assert_eq!(r, Ok((done(b"x"), 0)));
}

#[test]
fn many0_count_no_progress_streaming() {
    let r = run(many0_count(t(b"")), more(b"x"));
    assert_eq!(r, Err(ErrMode::Error(err(more(b"x"), ErrorKind::Many0Count))));
}

#[test]
fn many0_countc_runs_it() {
    let r: IResult<'_, _, Error> = many0_countc(done(b"aab"), t(b"a"));
    assert_eq!(r, Ok((done(b"b"), 2)));
}

#[test]
fn many1_count_counts() {
    let r = run(many1_count(t(b"abc")), done(b"abcabcdef"));
    assert_eq!(r, Ok((done(b"def"), 2)));
}

#[test]
fn many1_count_needs_one() {
    let r = run(many1_count(t(b"abc")), done(b"def"));
    assert_eq!(r, Err(ErrMode::Error(err(done(b"def"), ErrorKind::Many1Count))));
}

#[test]
fn many1_count_first_failure() {
    let r = run(many1_count(cut(t(b"abc"))), done(b"def"));
    assert_eq!(r, Err(ErrMode::Failure(err(done(b"def"), ErrorKind::Many1Count))));
}

#[test]
fn many1_count_no_progress() {
    let r = run(many1_count(t(b"")), done(b"x"));
    assert_eq!(r, Ok((done(b"x"), 1)));
}

#[test]
fn many1_countc_runs_it() {
    let r: IResult<'_, _, Error> = many1_countc(done(b"ab"), t(b"a"));
    assert_eq!(r, Ok((done(b"b"), 1)));
}

// ---- count ----

#[test]
fn count_exact() {
    let r = run(count(t(b"abc"), 2), done(b"abcabcabc"));
    assert_eq!(r, Ok((done(b"abc"), vec![&b"abc"[..], &b"abc"[..]])));
}

#[test]
fn count_error_at_start() {
    let r = run(count(t(b"abc"), 2), done(b"abcdef"));
    assert_eq!(r, Err(ErrMode::Error(err(done(b"abcdef"), ErrorKind::Count))));
}

#[test]
fn count_incomplete() {
    let r = run(count(t(b"abc"), 2), more(b"abca"));
    assert_eq!(r, Err(ErrMode::Incomplete(Needed::Size(3))));
}

#[test]
fn count_allows_no_progress() {
    let r = run(count(t(b""), 3), done(b"x"));
    assert_eq!(r, Ok((done(b"x"), vec![&b""[..], &b""[..], &b""[..]])));
}

#[test]
fn count_zero() {
    let r = run(count(t(b"abc"), 0), done(b"xyz"));
    assert_eq!(r, Ok((done(b"xyz"), vec![])));
}

// ---- folds ----

#[test]
fn fold_many0_folds() {
    let r = run(fold_many0(t(b"abc"), Vec::new(), Push), done(b"abcabcdef"));
    assert_eq!(r, Ok((done(b"def"), vec![&b"abc"[..], &b"abc"[..]])));
}

#[test]
fn fold_many0_no_progress_complete() {
    let r = run(fold_many0(t(b""), Vec::new(), Push), done(b"x"));
    assert_eq!(r, Ok((done(b"x"), vec![])));
}

#[test]
fn fold_many0_no_progress_streaming() {
    let r = run(fold_many0(t(b""), Vec::new(), Push), more(b"x"));
    assert_eq!(r, Err(ErrMode::Error(err(more(b"x"), ErrorKind::Many0))));
}

#[test]
fn fold_many0_keeps_init() {
    let r = run(fold_many0(t(b"b"), vec![&b"a"[..]], Push), done(b"bbc"));
    assert_eq!(r, Ok((done(b"c"), vec![&b"a"[..], &b"b"[..], &b"b"[..]])));
}

#[test]
fn fold_many1_folds() {
    let r = run(fold_many1(t(b"abc"), Vec::new(), Push), done(b"abcabcdef"));
    assert_eq!(r, Ok((done(b"def"), vec![&b"abc"[..], &b"abc"[..]])));
}

#[test]
fn fold_many1_needs_one() {
    let r = run(fold_many1(t(b"abc"), Vec::new(), Push), done(b"def"));
    assert_eq!(r, Err(ErrMode::Error(err(done(b"def"), ErrorKind::Many1))));
}

#[test]
fn fold_many1_first_failure() {
    let r = run(fold_many1(cut(t(b"abc")), Vec::new(), Push), done(b"def"));
    assert_eq!(r, Err(ErrMode::Failure(err(done(b"def"), ErrorKind::Many1))));
}

#[test]
fn fold_many1_no_progress_streaming() {
    let r = run(fold_many1(t(b""), Vec::new(), Push), more(b"x"));
    assert_eq!(r, Err(ErrMode::Failure(err(more(b"x"), ErrorKind::Many1))));
}

#[test]
fn fold_many1_incomplete_later() {
    let r = run(fold_many1(t(b"abc"), Vec::new(), Push), more(b"abcab"));
    assert_eq!(r, Err(ErrMode::Incomplete(Needed::Size(3))));
}

#[test]
fn fold_many1c_runs_it() {
    let r: IResult<'_, _, Error> = fold_many1c(done(b"aab"), t(b"a"), Vec::new(), Push);
    assert_eq!(r, Ok((done(b"b"), vec![&b"a"[..], &b"a"[..]])));
}

#[test]
fn fold_many_m_n_stops_at_n() {
    let r = run(fold_many_m_n(2, 3, t(b"abc"), Vec::new(), Push), done(b"abcabcabcabc"));
    assert_eq!(r, Ok((done(b"abc"), vec![&b"abc"[..], &b"abc"[..], &b"abc"[..]])));
}

#[test]
fn fold_many_m_n_too_few() {
    let r = run(fold_many_m_n(2, 3, t(b"abc"), Vec::new(), Push), done(b"abcdef"));
    assert_eq!(r, Err(ErrMode::Error(err(done(b"abcdef"), ErrorKind::ManyMN))));
}

#[test]
fn fold_many_m_n_no_progress_before_m() {
    let r = run(fold_many_m_n(2, 3, t(b""), Vec::new(), Push), done(b"x"));
    assert_eq!(r, Err(ErrMode::Incomplete(Needed::Unknown)));
}

#[test]
fn fold_many_m_n_enough_then_error() {
    let r = run(fold_many_m_n(1, 3, t(b"a"), Vec::new(), Push), done(b"aab"));
    assert_eq!(r, Ok((done(b"b"), vec![&b"a"[..], &b"a"[..]])));
}

#[test]
fn fold_many_m_nc_runs_it() {
    let r: IResult<'_, _, Error> = fold_many_m_nc(done(b"aaa"), 0, 2, t(b"a"), Vec::new(), Push);
    assert_eq!(r, Ok((done(b"a"), vec![&b"a"[..], &b"a"[..]])));
}

// ---- length_value ----

#[test]
fn length_value_parses_block() {
    let r = run(length_value(be_u8(), t(b"abc")), done(b"\x03abcx"));
    assert_eq!(r, Ok((done(b"x"), &b"abc"[..])));
}

#[test]
fn length_value_short_input() {
    let r = run(length_value(be_u8(), t(b"abc")), more(b"\x05abc"));
    assert_eq!(r, Err(ErrMode::Incomplete(Needed::Size(5))));
}

#[test]
fn length_value_inner_incomplete_is_error() {
    let r = run(length_value(be_u8(), t(b"abc")), more(b"\x02abc"));
    assert_eq!(r, Err(ErrMode::Error(err(more(b"ab"), ErrorKind::Complete))));
}

#[test]
fn length_value_inner_eof_on_complete_input() {
    let r = run(length_value(be_u8(), t(b"abc")), done(b"\x02abc"));
    assert_eq!(r, Err(ErrMode::Error(err(done(b"ab"), ErrorKind::Eof))));
}

#[test]
fn length_value_drops_unused_block_bytes() {
    let r = run(length_value(be_u8(), t(b"abc")), done(b"\x04abcdz"));
    assert_eq!(r, Ok((done(b"z"), &b"abc"[..])));
}

#[test]
fn length_value_length_parser_fails() {
    let r = run(length_value(be_u8(), t(b"abc")), more(b""));
    assert_eq!(r, Err(ErrMode::Incomplete(Needed::Size(1))));
}

#[test]
fn length_valuec_runs_it() {
    let r: IResult<'_, _, Error> = length_valuec(done(b"\x02ab!"), be_u8(), take(2));
    assert_eq!(r, Ok((done(b"!"), &b"ab"[..])));
}

// ---- laws on concrete values ----

#[test]
fn law_many1_is_f_then_many0_example() {
    let input = done(b"ababx");
    let (rest, first) = run(t(b"ab"), input).unwrap();
    let (end, others) = run(many0(t(b"ab")), rest).unwrap();
    let mut expected = vec![first];
    expected.extend(others);
    assert_eq!(run(many1(t(b"ab")), input), Ok((end, expected)));
}

#[test]
fn law_many0_count_is_len_of_many0_example() {
    let input = done(b"aaab");
    let (end, items) = run(many0(t(b"a")), input).unwrap();
    assert_eq!(run(many0_count(t(b"a")), input), Ok((end, items.len())));
}

#[test]
fn law_fold_many0_is_fold_of_many0_example() {
    let input = done(b"aaab");
    let (end, items) = run(many0(t(b"a")), input).unwrap();
    assert_eq!(run(fold_many0(t(b"a"), Vec::new(), Push), input), Ok((end, items)));
}

#[test]
fn law_separated_lists_agree_example() {
    let input = done(b"x,x,y");
    assert_eq!(
        run(separated_list(t(b","), t(b"x")), input),
        run(separated_nonempty_list(t(b","), t(b"x")), input)
    );
}

#[test]
fn law_count_exact_example() {
    let (_, v) = run(count(t(b"a"), 3), done(b"aaaa")).unwrap();
    assert_eq!(v.len(), 3);
}

#[test]
fn law_many_m_n_bounds_example() {
    let (_, v) = run(many_m_n(1, 2, t(b"a")), done(b"aaaa")).unwrap();
    assert!(1 <= v.len() && v.len() <= 2);
}

#[test]
fn law_consumes_example() {
    let input = done(b"abab!");
    let (rest, _) = run(many0(t(b"ab")), input).unwrap();
    assert!(input.data.ends_with(rest.data));
}

// ---- primitives ----

#[test]
fn tag_mismatch() {
    assert_eq!(run(t(b"ab"), done(b"ax")), Err(ErrMode::Error(err(done(b"ax"), ErrorKind::Tag))));
}

#[test]
fn take_needs_more() {
    assert_eq!(run(take(3), more(b"ab")), Err(ErrMode::Incomplete(Needed::Size(3))));
    assert_eq!(run(take(3), done(b"ab")), Err(ErrMode::Error(err(done(b"ab"), ErrorKind::Eof))));
}

#[test]
fn be_u8_reads_byte() {
    assert_eq!(run(be_u8(), done(b"\x07z")), Ok((done(b"z"), 7u8)));
}

// ---- errors that keep their context ----

fn vrun<'a, P: Parser<'a, VerboseError<'a>>>(
    p: P,
    input: Input<'a>,
) -> IResult<'a, P::Output, VerboseError<'a>> {
    p.parse(input)
}

#[test]
fn many_till_appends_context_to_verbose_error() {
    let r = vrun(many_till(t(b"abcd"), t(b"efgh")), done(b"abcdintro"));
    let expected = VerboseError {
        errors: vec![(done(b"intro"), ErrorKind::Tag), (done(b"intro"), ErrorKind::ManyTill)],
    };
    assert_eq!(r, Err(ErrMode::Error(expected)));
}

#[test]
fn many1_verbose_error() {
    let r = vrun(many1(t(b"ab")), done(b"xy"));
    let expected = VerboseError { errors: vec![(done(b"xy"), ErrorKind::Many1)] };
    assert_eq!(r, Err(ErrMode::Error(expected)));
}

// ---- folds against the repetitions they mirror ----

#[test]
fn law_fold_many1_is_fold_many0_when_first_consumes_example() {
    let input = done(b"aaab");
    assert_eq!(
        run(fold_many1(t(b"a"), Vec::new(), Push), input),
        run(fold_many0(t(b"a"), Vec::new(), Push), input)
    );
}

#[test]
fn law_fold_many_m_n_push_is_many_m_n_example() {
    let input = done(b"aaab");
    assert_eq!(
        run(fold_many_m_n(1, 2, t(b"a"), Vec::new(), Push), input),
        run(many_m_n(1, 2, t(b"a")), input)
    );
}

#[test]
fn law_fold_many0_push_is_many0_example() {
    let input = done(b"ababx");
    assert_eq!(
        run(fold_many0(t(b"ab"), Vec::new(), Push), input),
        run(many0(t(b"ab")), input)
    );
}

#[test]
fn fold_many0_runs_twice_alike() {
    let p = fold_many0(t(b"a"), vec![&b"z"[..]], Push);
    let input = done(b"aab");
    let first: IResult<'_, _, Error> = p.parse(input);
    let second: IResult<'_, _, Error> = p.parse(input);
    assert_eq!(first, second);
    assert_eq!(first, Ok((done(b"b"), vec![&b"z"[..], &b"a"[..], &b"a"[..]])));
}

#[test]
fn fold_many_m_nc_equals_fold_many_m_n() {
    let input = done(b"aaaa");
    let direct: IResult<'_, _, Error> = fold_many_m_nc(input, 1, 3, t(b"a"), Vec::new(), Push);
    assert_eq!(direct, run(fold_many_m_n(1, 3, t(b"a"), Vec::new(), Push), input));
}

#[test]
fn into_length_of_bool() {
    assert_eq!(true.into_length(), 1);
    assert_eq!(false.into_length(), 0);
}

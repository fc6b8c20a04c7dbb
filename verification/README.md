# nom — repetition combinators, verified

A Verus library of parser combinators that apply a parser several times:
`many0`, `many1`, `many_till`, `separated_list`, `separated_nonempty_list`,
`many_m_n`, `count`, `many0_count`, `many1_count`, `fold_many0`, `fold_many1`,
`fold_many_m_n` and `length_value`, each with a `…c` form that runs it on an
input directly.

Layout:

- `src/input.rs` — byte inputs (`Input`, with an end-of-input flag), results
  (`IResult`), their models, and the `Parser` trait: a parser states what it
  computes as a spec function and proves that it only consumes input.
- `src/error.rs` — `ErrMode` (`Incomplete`, `Error`, `Failure`), `Needed`,
  `ErrorKind`, the `ParseError` trait and two error types: `Error` (keeps the
  innermost error) and `VerboseError` (keeps every context).
- `src/primitives.rs` — `tag`, `take`, `be_u8` and `cut`, to build from.
- `src/multi/` — the combinators, one spec function each that states their
  result exactly, and `laws.rs` with the properties relating them.

`tests/multi.rs` runs every combinator on concrete inputs.

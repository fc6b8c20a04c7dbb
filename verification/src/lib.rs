//! Repetition combinators for byte-slice parsers, with their behaviour
//! stated as Verus contracts.
//!
//! A parser is any value implementing [`input::Parser`]: it takes an
//! [`input::Input`] and either returns the remaining input together with a
//! value, or one of the three kinds of [`input::ErrMode`].  The combinators in
//! [`multi`] build new parsers from such parsers, and each one has a spec
//! function describing its result exactly in terms of the spec functions of
//! the parsers it is built from.

pub mod input;
pub mod error;
pub mod primitives;
pub mod multi;

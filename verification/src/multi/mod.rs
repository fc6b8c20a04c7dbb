//! Combinators that apply a parser several times.

pub mod many;
pub mod separated;
pub mod bounded;
pub mod counting;
pub mod fold;
pub mod length;
pub mod laws;
pub mod traces;

pub use many::{many0, many0c, many1, many1c, many_till, many_tillc};
pub use separated::{separated_list, separated_listc, separated_nonempty_list, separated_nonempty_listc};
pub use bounded::{many_m_n, many_m_nc, count};
pub use counting::{many0_count, many0_countc, many1_count, many1_countc};
pub use fold::{fold_many0, fold_many1, fold_many1c, fold_many_m_n, fold_many_m_nc, Accumulate, Push};
pub use length::{length_value, length_valuec, IntoLength};

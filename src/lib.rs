use vstd::prelude::*;

pub mod fuzzy;
pub mod index;
pub mod lexer;
pub mod position;
pub mod word_regex;

pub use fuzzy::{fuzzy_find, FuzzyConfig};
pub use index::{Location, ReverseIndex};
pub use position::Pos;

verus! {

} // verus!

//! Code-point range algebra and finite automata for compiling regular expressions.
//!
//! The building blocks are inclusive ranges of code points (`CharRange`), sorted maps from
//! disjoint ranges to values (`CharMap`), sets of code points stored as sorted ranges
//! (`CharSet`) and unordered, possibly overlapping range-value lists (`CharMultiMap`). On top
//! of them, `Nfa` holds a non-deterministic automaton whose subset construction fills a `Dfa`.
use vstd::prelude::*;

pub mod bits;
pub mod char_map;
pub mod dfa;
pub mod nfa;
pub mod range;

pub use char_map::{CharMap, CharMultiMap, CharSet};
pub use dfa::{Dfa, DfaState};
pub use nfa::{Nfa, NfaState};
pub use range::CharRange;

verus! {

} // verus!

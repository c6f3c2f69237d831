//! An LR(1) parsing-automaton generator: FIRST-set computation, LR(1)
//! closure and goto, subset construction with core-based state merging,
//! ACTION/GOTO table derivation, and a shift-reduce driver loop.

pub mod parser_types;
pub mod parser_utils;
pub mod c99grammar;

use vstd::prelude::*;

verus! {

/// The terminal code reserved for the end-of-input marker.
pub const EOF_TERMINAL: u64 = 0;

/// The non-terminal code reserved for the synthetic start symbol of an
/// augmented grammar.
pub const START_NONTERMINAL: u64 = 0;

} // verus!

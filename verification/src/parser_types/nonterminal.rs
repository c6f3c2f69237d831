//! The capability contract of a non-terminal alphabet: a distinguished
//! start symbol.  Concrete alphabets implement this and convert to the
//! non-terminal codes the core algorithms work on, where code
//! [`crate::START_NONTERMINAL`] stands for the synthetic start symbol.

use vstd::prelude::*;

verus! {

pub trait NonTerminalTrait: Sized {
    /// The designated start symbol of the alphabet.
    spec fn start_spec() -> Self;

    /// Accepts exactly the one start symbol, which [`Self::start`] returns,
    /// and no other value.
    fn is_start(&self) -> (r: bool)
        ensures
            r == (*self == Self::start_spec()),
    ;

    fn start() -> (r: Self)
        ensures
            r == Self::start_spec(),
    ;
}

} // verus!

//! The capability contract of a terminal alphabet: a distinguished
//! end-of-input marker.  Concrete alphabets implement this and convert to
//! the terminal codes the core algorithms work on, where code
//! [`crate::EOF_TERMINAL`] stands for end-of-input.

use vstd::prelude::*;

verus! {

pub trait TerminalTrait: Sized {
    /// The designated end-of-input value of the alphabet.
    spec fn eof_spec() -> Self;

    /// Accepts exactly the one end-of-input marker, which [`Self::eof`]
    /// returns, and no other value.
    fn is_eof(&self) -> (r: bool)
        ensures
            r == (*self == Self::eof_spec()),
    ;

    fn eof() -> (r: Self)
        ensures
            r == Self::eof_spec(),
    ;
}

} // verus!

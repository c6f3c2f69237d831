//! Grammar symbols.  Terminals and non-terminals are each drawn from a
//! finite, totally ordered space of integer codes; the code spaces of the
//! two kinds are independent.

use vstd::prelude::*;
use crate::parser_utils::ordered::TotalOrdered;

verus! {

/// A grammar symbol: either a non-terminal or a terminal, identified by its
/// code.  Terminal code [`crate::EOF_TERMINAL`] is the end-of-input marker;
/// non-terminal code [`crate::START_NONTERMINAL`] is the synthetic start
/// symbol of an augmented grammar.
#[derive(Copy, Clone, Debug, PartialEq, Eq, Structural)]
pub enum TerminalOrNonTerminal {
    NonTerminal(u64),
    Terminal(u64),
}

/// The total order on symbols: non-terminals come before terminals, and
/// symbols of the same kind are ordered by code.
pub open spec fn sym_lt_spec(a: TerminalOrNonTerminal, b: TerminalOrNonTerminal) -> bool {
    match (a, b) {
        (TerminalOrNonTerminal::NonTerminal(x), TerminalOrNonTerminal::NonTerminal(y)) => x < y,
        (TerminalOrNonTerminal::NonTerminal(_), TerminalOrNonTerminal::Terminal(_)) => true,
        (TerminalOrNonTerminal::Terminal(_), TerminalOrNonTerminal::NonTerminal(_)) => false,
        (TerminalOrNonTerminal::Terminal(x), TerminalOrNonTerminal::Terminal(y)) => x < y,
    }
}

impl TotalOrdered for TerminalOrNonTerminal {
    open spec fn lt_spec(self, other: Self) -> bool {
        sym_lt_spec(self, other)
    }

    proof fn lemma_total(a: Self, b: Self, c: Self) {
    }

    fn lt(&self, other: &Self) -> (r: bool) {
        match (self, other) {
            (TerminalOrNonTerminal::NonTerminal(x), TerminalOrNonTerminal::NonTerminal(y)) => x < y,
            (TerminalOrNonTerminal::NonTerminal(_), TerminalOrNonTerminal::Terminal(_)) => true,
            (TerminalOrNonTerminal::Terminal(_), TerminalOrNonTerminal::NonTerminal(_)) => false,
            (TerminalOrNonTerminal::Terminal(x), TerminalOrNonTerminal::Terminal(y)) => x < y,
        }
    }
}

} // verus!

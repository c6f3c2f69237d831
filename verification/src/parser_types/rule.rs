//! Grammar rules (productions).  Rules live in one flat, append-only
//! sequence; a rule's identity everywhere downstream is its index into that
//! sequence, which is the reduce action's payload and part of every item.

use vstd::prelude::*;
use crate::parser_types::terminal_or_nonterminal::TerminalOrNonTerminal;

verus! {

/// A production: a left-hand non-terminal and a non-empty right-hand
/// sequence of symbols.
pub struct Rule {
    pub lhs: u64,
    pub rhs: Vec<TerminalOrNonTerminal>,
}

/// Every right-hand side is non-empty: this design has no epsilon
/// productions, so FIRST and closure only ever inspect existing symbols.
pub open spec fn rule_wf(r: Rule) -> bool {
    r.rhs@.len() >= 1
}

pub open spec fn rules_wf(rules: Seq<Rule>) -> bool {
    forall|i: int| 0 <= i < rules.len() ==> rule_wf(#[trigger] rules[i])
}

impl Clone for Rule {
    fn clone(&self) -> (r: Rule)
        ensures
            r.lhs == self.lhs,
            r.rhs@ == self.rhs@,
    {
        let mut rhs: Vec<TerminalOrNonTerminal> = Vec::new();
        let mut i: usize = 0;
        while i < self.rhs.len()
            invariant
                i <= self.rhs@.len(),
                rhs@ == self.rhs@.take(i as int),
            decreases self.rhs@.len() - i,
        {
            rhs.push(self.rhs[i]);
            proof {
                assert(rhs@ =~= self.rhs@.take(i + 1));
            }
            i += 1;
        }
        proof {
            assert(self.rhs@.take(self.rhs@.len() as int) =~= self.rhs@);
        }
        Rule { lhs: self.lhs, rhs }
    }
}

/// Decide well-formedness of a rule sequence, so that callers can test the
/// precondition of the construction pipeline at run time.
pub fn check_rules_wf(rules: &Vec<Rule>) -> (r: bool)
    ensures
        r == rules_wf(rules@),
{
    let mut i: usize = 0;
    while i < rules.len()
        invariant
            i <= rules@.len(),
            forall|k: int| 0 <= k < i ==> rule_wf(#[trigger] rules@[k]),
        decreases rules@.len() - i,
    {
        if rules[i].rhs.len() == 0 {
            return false;
        }
        i += 1;
    }
    true
}

/// Whether some rule's left-hand side is `m`.
pub fn has_lhs_rule(rules: &Vec<Rule>, m: u64) -> (r: bool)
    ensures
        r == exists|j: int| 0 <= j < rules@.len() && (#[trigger] rules@[j].lhs) == m,
{
    let mut j: usize = 0;
    while j < rules.len()
        invariant
            j <= rules@.len(),
            forall|k: int| 0 <= k < j ==> (#[trigger] rules@[k].lhs) != m,
        decreases rules@.len() - j,
    {
        if rules[j].lhs == m {
            return true;
        }
        j += 1;
    }
    false
}

} // verus!

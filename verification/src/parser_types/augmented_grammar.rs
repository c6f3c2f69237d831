//! The augmented grammar: a user grammar together with the synthetic start
//! rule, which the rule sequence handed to the construction pipeline carries
//! at index 0.

use vstd::prelude::*;
use crate::parser_types::rule::Rule;

verus! {

/// A user grammar plus its synthetic start rule.  Reducing the start rule
/// (index 0 of the flattened sequence) under the end-of-input lookahead is
/// what signals acceptance.
pub struct AugmentedGrammar {
    pub start_rule: Rule,
    pub rules: Vec<Rule>,
}

impl AugmentedGrammar {
    /// The flat rule sequence: the start rule at index 0, then the user's
    /// rules in their original order.
    pub fn rules(&self) -> (r: Vec<Rule>)
        ensures
            r@.len() == self.rules@.len() + 1,
            r@[0].lhs == self.start_rule.lhs,
            r@[0].rhs@ == self.start_rule.rhs@,
            forall|i: int|
                1 <= i < r@.len() ==> r@[i].lhs == #[trigger] self.rules@[i - 1].lhs && r@[i].rhs@
                    == self.rules@[i - 1].rhs@,
    {
        let mut r: Vec<Rule> = Vec::new();
        r.push(self.start_rule.clone());
        let mut i: usize = 0;
        while i < self.rules.len()
            invariant
                r@.len() == i + 1,
                i <= self.rules@.len(),
                r@[0].lhs == self.start_rule.lhs,
                r@[0].rhs@ == self.start_rule.rhs@,
                forall|k: int|
                    1 <= k < r@.len() ==> r@[k].lhs == #[trigger] self.rules@[k - 1].lhs
                        && r@[k].rhs@ == self.rules@[k - 1].rhs@,
            decreases self.rules@.len() - i,
        {
            r.push(self.rules[i].clone());
            i += 1;
        }
        r
    }
}

} // verus!

//! LR(1) items and their LR(0) cores.  An item is a rule index, a dot
//! position inside that rule's right-hand side, and one lookahead terminal;
//! items differing only in lookahead are distinct items.  The core drops the
//! lookahead and is the state-merging key of the automaton construction.

use vstd::prelude::*;
use vstd::string::StringExecFns;
use crate::parser_types::rule::Rule;
use crate::parser_types::terminal_or_nonterminal::TerminalOrNonTerminal;
use crate::parser_utils::ordered::{sorted_by, sorted_insert, TotalOrdered};

verus! {

/// An LR(1) item: `(rule index, dot position, lookahead terminal)`.
#[derive(Copy, Clone, Debug, PartialEq, Eq, Structural)]
pub struct LR1Item {
    pub index: usize,
    pub dot_index: usize,
    pub lookahead: u64,
}

/// An LR(0) item: an LR(1) item with the lookahead erased.  Used solely as
/// the state-identity key for merging.
#[derive(Copy, Clone, Debug, PartialEq, Eq, Structural)]
pub struct LR0Item {
    pub index: usize,
    pub dot_index: usize,
}

impl TotalOrdered for LR1Item {
    /// Lexicographic order by rule index, then dot, then lookahead.
    open spec fn lt_spec(self, other: Self) -> bool {
        ||| self.index < other.index
        ||| (self.index == other.index && self.dot_index < other.dot_index)
        ||| (self.index == other.index && self.dot_index == other.dot_index && self.lookahead
            < other.lookahead)
    }

    proof fn lemma_total(a: Self, b: Self, c: Self) {
    }

    fn lt(&self, other: &Self) -> (r: bool) {
        if self.index != other.index {
            self.index < other.index
        } else if self.dot_index != other.dot_index {
            self.dot_index < other.dot_index
        } else {
            self.lookahead < other.lookahead
        }
    }
}

impl TotalOrdered for LR0Item {
    /// Lexicographic order by rule index, then dot.
    open spec fn lt_spec(self, other: Self) -> bool {
        ||| self.index < other.index
        ||| (self.index == other.index && self.dot_index < other.dot_index)
    }

    proof fn lemma_total(a: Self, b: Self, c: Self) {
    }

    fn lt(&self, other: &Self) -> (r: bool) {
        if self.index != other.index {
            self.index < other.index
        } else {
            self.dot_index < other.dot_index
        }
    }
}

/// A set of LR(1) items in canonical (strictly increasing) form.
pub open spec fn item_sorted(s: Seq<LR1Item>) -> bool {
    sorted_by(s)
}

/// A set of LR(0) cores in canonical form.
pub open spec fn core_sorted(s: Seq<LR0Item>) -> bool {
    sorted_by(s)
}

/// The item's indices address an existing rule and a dot position within
/// (or just past) its right-hand side.
pub open spec fn item_valid(rules: Seq<Rule>, it: LR1Item) -> bool {
    &&& it.index < rules.len()
    &&& it.dot_index <= rules[it.index as int].rhs@.len()
}

pub open spec fn items_valid(rules: Seq<Rule>, items: Seq<LR1Item>) -> bool {
    forall|it: LR1Item| items.contains(it) ==> item_valid(rules, it)
}

/// The symbol immediately at the item's dot, if the dot is not at the end.
pub open spec fn item_next_symbol(rules: Seq<Rule>, it: LR1Item) -> Option<TerminalOrNonTerminal> {
    if it.dot_index < rules[it.index as int].rhs@.len() {
        Some(rules[it.index as int].rhs@[it.dot_index as int])
    } else {
        None
    }
}

/// The lookahead erasure of an item.
pub open spec fn item_core(it: LR1Item) -> LR0Item {
    LR0Item { index: it.index, dot_index: it.dot_index }
}

impl LR1Item {
    pub fn new(index: usize, dot_index: usize, lookahead: u64) -> (r: Self)
        ensures
            r == (LR1Item { index, dot_index, lookahead }),
    {
        LR1Item { index, dot_index, lookahead }
    }

    /// The symbol at the dot, or `None` when the dot is at the end of the
    /// rule.
    pub fn next_symbol(&self, rules: &Vec<Rule>) -> (r: Option<TerminalOrNonTerminal>)
        requires
            self.index < rules@.len(),
        ensures
            r == item_next_symbol(rules@, *self),
    {
        let rule = &rules[self.index];
        if self.dot_index < rule.rhs.len() {
            Some(rule.rhs[self.dot_index])
        } else {
            None
        }
    }

    /// The symbol just before the dot, or `None` when the dot is at the
    /// start of the rule.
    pub fn prev_symbol(&self, rules: &Vec<Rule>) -> (r: Option<TerminalOrNonTerminal>)
        requires
            self.index < rules@.len(),
            self.dot_index <= rules@[self.index as int].rhs@.len(),
        ensures
            self.dot_index == 0 ==> r is None,
            self.dot_index > 0 ==> r == Some(
                rules@[self.index as int].rhs@[self.dot_index - 1],
            ),
    {
        if self.dot_index == 0 {
            None
        } else {
            Some(rules[self.index].rhs[self.dot_index - 1])
        }
    }

    /// The rule the item is an occurrence of.
    pub fn definition(&self, rules: &Vec<Rule>) -> (r: Rule)
        requires
            self.index < rules@.len(),
        ensures
            r.lhs == rules@[self.index as int].lhs,
            r.rhs@ == rules@[self.index as int].rhs@,
    {
        rules[self.index].clone()
    }

    /// Render the item as `lhs -> alpha . beta, lookahead`.
    pub fn format(&self, rules: &Vec<Rule>) -> (r: String)
        requires
            self.index < rules@.len(),
    {
        let rule = &rules[self.index];
        let mut s = crate::parser_utils::render::symbol_label(
            &TerminalOrNonTerminal::NonTerminal(rule.lhs),
        );
        s.append(" ->");
        let mut i: usize = 0;
        while i < rule.rhs.len()
            invariant
                i <= rule.rhs@.len(),
            decreases rule.rhs@.len() - i,
        {
            s.append(" ");
            if i == self.dot_index {
                s.append(". ");
            }
            let lab = crate::parser_utils::render::symbol_label(&rule.rhs[i]);
            s.append(lab.as_str());
            i += 1;
        }
        if self.dot_index == rule.rhs.len() {
            s.append(" .");
        }
        s.append(", ");
        let la = crate::parser_utils::render::symbol_label(
            &TerminalOrNonTerminal::Terminal(self.lookahead),
        );
        s.append(la.as_str());
        s
    }

    /// The lookahead erasure of this item.
    pub fn to_core(&self) -> (r: LR0Item)
        ensures
            r == item_core(*self),
    {
        LR0Item { index: self.index, dot_index: self.dot_index }
    }
}

/// `cores` is exactly the set of cores of `items`.
pub open spec fn is_core_set(items: Seq<LR1Item>, cores: Seq<LR0Item>) -> bool {
    forall|c: LR0Item| #[trigger]
        cores.contains(c) <==> exists|it: LR1Item| #[trigger] items.contains(it) && item_core(it) == c
}

/// The core set as a value: the one canonical core vector of an item set.
pub open spec fn core_set_val(items: Seq<LR1Item>) -> Seq<LR0Item> {
    choose|r: Seq<LR0Item>| core_sorted(r) && is_core_set(items, r)
}

/// The canonical set of cores of an item set: the state-merging key.
pub fn core_set_of(items: &Vec<LR1Item>) -> (r: Vec<LR0Item>)
    ensures
        core_sorted(r@),
        is_core_set(items@, r@),
        r@ == core_set_val(items@),
{
    let mut r: Vec<LR0Item> = Vec::new();
    let mut i: usize = 0;
    while i < items.len()
        invariant
            core_sorted(r@),
            i <= items@.len(),
            forall|c: LR0Item| #[trigger]
                r@.contains(c) <==> exists|it: LR1Item| #[trigger] items@.take(i as int).contains(
                    it,
                ) && item_core(it) == c,
        decreases items@.len() - i,
    {
        let it = items[i];
        sorted_insert(&mut r, it.to_core());
        proof {
            assert(items@.take(i + 1) =~= items@.take(i as int).push(items@[i as int]));
            assert forall|c: LR0Item| #[trigger]
                r@.contains(c) <==> exists|x: LR1Item| #[trigger] items@.take(i + 1).contains(x)
                    && item_core(x) == c by {
                if r@.contains(c) {
                    if c == item_core(it) {
                        assert(items@.take(i + 1)[i as int] == items@[i as int]);
                        assert(items@.take(i + 1).contains(items@[i as int]));
                    } else {
                        let x = choose|x: LR1Item| #[trigger] items@.take(i as int).contains(x)
                            && item_core(x) == c;
                        assert(items@.take(i + 1).contains(x));
                    }
                }
                if exists|x: LR1Item| #[trigger] items@.take(i + 1).contains(x) && item_core(x)
                    == c {
                    let x = choose|x: LR1Item| #[trigger] items@.take(i + 1).contains(x)
                        && item_core(x) == c;
                    if x == items@[i as int] {
                        assert(r@.contains(c));
                    } else {
                        let k = choose|k: int|
                            0 <= k < i + 1 && #[trigger] items@.take(i + 1)[k] == x;
                        assert(items@.take(i as int)[k] == x);
                        assert(items@.take(i as int).contains(x));
                        assert(r@.contains(c));
                    }
                }
            }
        }
        i += 1;
    }
    proof {
        assert(items@.take(items@.len() as int) =~= items@);
        assert(exists|c: Seq<LR0Item>| #[trigger] core_sorted(c) && is_core_set(items@, c)) by {
            assert(core_sorted(r@) && is_core_set(items@, r@));
        }
        let c = core_set_val(items@);
        assert(core_sorted(c) && is_core_set(items@, c));
        assert forall|x: LR0Item| r@.contains(x) <==> c.contains(x) by {
            if r@.contains(x) {
                assert(exists|it: LR1Item| #[trigger] items@.contains(it) && item_core(it)
                    == x);
                assert(c.contains(x));
            }
            if c.contains(x) {
                assert(exists|it: LR1Item| #[trigger] items@.contains(it) && item_core(it)
                    == x);
                assert(r@.contains(x));
            }
        }
        crate::parser_utils::ordered::lemma_sorted_unique(r@, c);
    }
    r
}

/// Set equality of two canonical core sets is sequence equality, so the
/// merging test can compare them element by element.
pub fn core_set_equal(a: &Vec<LR0Item>, b: &Vec<LR0Item>) -> (r: bool)
    ensures
        r == (a@ == b@),
{
    if a.len() != b.len() {
        proof {
            assert(a@.len() != b@.len());
        }
        return false;
    }
    let mut i: usize = 0;
    while i < a.len()
        invariant
            a@.len() == b@.len(),
            i <= a@.len(),
            forall|k: int| 0 <= k < i ==> a@[k] == b@[k],
        decreases a@.len() - i,
    {
        if a[i].index != b[i].index || a[i].dot_index != b[i].dot_index {
            proof {
                assert(a@[i as int] != b@[i as int]);
            }
            return false;
        }
        i += 1;
    }
    proof {
        assert(a@ =~= b@);
    }
    true
}

/// Render an item set, one item per line.
pub fn format_lr1_set(rules: &Vec<Rule>, item_set: &Vec<LR1Item>) -> (r: String)
    requires
        items_valid(rules@, item_set@),
{
    let mut s = String::from_str("{\n");
    let mut i: usize = 0;
    while i < item_set.len()
        invariant
            items_valid(rules@, item_set@),
            i <= item_set@.len(),
        decreases item_set@.len() - i,
    {
        proof {
            assert(item_set@.contains(item_set@[i as int]));
        }
        let line = item_set[i].format(rules);
        s.append("\t");
        s.append(line.as_str());
        s.append("\n");
        i += 1;
    }
    s.append("}");
    s
}

} // verus!

//! The LR(1) automaton and its construction: canonical subset construction
//! with on-the-fly merging of states whose LR(0) cores coincide.  States
//! are numbered in order of discovery and processed as a work list; a state
//! whose item set a later merge extends goes back on the list, so added
//! lookaheads propagate onward until the automaton is stable.  The machine
//! that comes out is well formed (every state's item set is a closed
//! superset of its kernel, transition targets in range), complete (every
//! symbol at a dot has a transition), sound (every transition is justified
//! by an item), goto-correct (a transition's target carries the source's
//! dot-advanced items) and merged (no two states share a core).

use vstd::prelude::*;
use vstd::string::StringExecFns;
use crate::EOF_TERMINAL;
use crate::parser_types::lr1item::{
    core_set_equal, core_set_of, core_set_val, core_sorted, is_core_set, item_core,
    item_next_symbol, item_sorted, item_valid, items_valid, LR0Item, LR1Item,
};
use crate::parser_types::rule::{rules_wf, Rule};
use crate::parser_types::terminal_or_nonterminal::{sym_lt_spec, TerminalOrNonTerminal};
use crate::parser_utils::closure::{
    closed_under_expansion, closure_step_ok, closure_val, is_closure_of, lemma_step_ok_monotone,
    lr1_closure_with, set_includes_seq, tail_nts_have_rules,
};
use crate::parser_utils::first::{compute_firsts, firsts_wf, FirstSets};
use crate::parser_utils::ordered::{lemma_sorted_unique, sorted_by, sorted_insert, sorted_union, TotalOrdered};

verus! {

/// One labeled edge of the automaton.
#[derive(Copy, Clone, Debug, PartialEq, Eq, Structural)]
pub struct Transition {
    pub symbol: TerminalOrNonTerminal,
    pub target: usize,
}

/// A state of the automaton: its number, the kernel it was discovered with,
/// the closed item set (which merging may later extend), and the outgoing
/// transitions, one per symbol at a dot.
pub struct LR1State {
    pub state_number: usize,
    pub items: Vec<LR1Item>,
    pub kernel: Vec<LR1Item>,
    pub transitions: Vec<Transition>,
}

/// The item with the dot moved one symbol to the right.
pub open spec fn advance_item(it: LR1Item) -> LR1Item {
    LR1Item { index: it.index, dot_index: (it.dot_index + 1) as usize, lookahead: it.lookahead }
}

/// Some item of `s` has core `c`.
pub open spec fn has_core(s: Seq<LR1Item>, c: LR0Item) -> bool {
    exists|it: LR1Item| #[trigger] s.contains(it) && item_core(it) == c
}

/// `a` and `b` have set-equal LR(0) cores: the state-merging criterion.
pub open spec fn core_same(a: Seq<LR1Item>, b: Seq<LR1Item>) -> bool {
    forall|c: LR0Item| #[trigger] has_core(a, c) <==> #[trigger] has_core(b, c)
}

/// `ts` has an edge labeled `s`.
pub open spec fn has_transition(ts: Seq<Transition>, s: TerminalOrNonTerminal) -> bool {
    exists|k: int| 0 <= k < ts.len() && (#[trigger] ts[k]).symbol == s
}

/// Structural well-formedness of one state.
pub open spec fn state_wf(rules: Seq<Rule>, n_states: int, st: LR1State) -> bool {
    &&& item_sorted(st.items@)
    &&& items_valid(rules, st.items@)
    &&& item_sorted(st.kernel@)
    &&& items_valid(rules, st.kernel@)
    &&& set_includes_seq(st.items@.to_set(), st.kernel@)
    &&& closed_under_expansion(rules, st.items@.to_set())
    &&& forall|p: int, q: int|
        0 <= p < q < st.transitions@.len() ==> sym_lt_spec(
            st.transitions@[p].symbol,
            st.transitions@[q].symbol,
        )
    &&& forall|k: int| 0 <= k < st.transitions@.len() ==> (#[trigger] st.transitions@[k]).target
        < n_states
}

/// Every symbol at the dot of some item has an outgoing transition.
pub open spec fn state_transitions_complete(rules: Seq<Rule>, st: LR1State) -> bool {
    forall|it: LR1Item| #[trigger]
        st.items@.contains(it) ==> (item_next_symbol(rules, it) matches Some(s) ==> has_transition(
            st.transitions@,
            s,
        ))
}

/// Every transition is labeled with a symbol at the dot of some item.
pub open spec fn state_transitions_sound(rules: Seq<Rule>, st: LR1State) -> bool {
    forall|s: TerminalOrNonTerminal|
        #[trigger] has_transition(st.transitions@, s) ==> exists|it: LR1Item| #[trigger]
            st.items@.contains(it) && item_next_symbol(rules, it) == Some(s)
}

/// Goto correctness: following the transition labeled with the symbol at
/// an item's dot leads to a state that holds that item with the dot
/// advanced past the symbol.
pub open spec fn state_gotos_ok(rules: Seq<Rule>, states: Seq<LR1State>, st: LR1State) -> bool {
    forall|it: LR1Item, q: int|
        #[trigger] st.items@.contains(it) && 0 <= q < st.transitions@.len() && item_next_symbol(
            rules,
            it,
        ) == Some((#[trigger] st.transitions@[q]).symbol) ==> st.transitions@[q].target
            < states.len() && states[st.transitions@[q].target as int].items@.contains(
            advance_item(it),
        )
}

/// Goto correctness carries over when the state's views are unchanged and
/// every state's item set only grew.
proof fn lemma_gotos_ok_monotone(
    rules: Seq<Rule>,
    states_old: Seq<LR1State>,
    states_new: Seq<LR1State>,
    a: LR1State,
    b: LR1State,
)
    requires
        a.items@ == b.items@,
        a.transitions@ == b.transitions@,
        states_old.len() <= states_new.len(),
        forall|m: int, x: LR1Item|
            0 <= m < states_old.len() && #[trigger] states_old[m].items@.contains(x)
                ==> states_new[m].items@.contains(x),
        state_gotos_ok(rules, states_old, a),
    ensures
        state_gotos_ok(rules, states_new, b),
{
    assert forall|it: LR1Item, q: int|
        #[trigger] b.items@.contains(it) && 0 <= q < b.transitions@.len() && item_next_symbol(
            rules,
            it,
        ) == Some((#[trigger] b.transitions@[q]).symbol) implies b.transitions@[q].target
        < states_new.len() && states_new[b.transitions@[q].target as int].items@.contains(
        advance_item(it),
    ) by {
        assert(a.items@.contains(it));
        assert(a.transitions@[q] == b.transitions@[q]);
        assert(a.transitions@[q].target < states_old.len()
            && states_old[a.transitions@[q].target as int].items@.contains(advance_item(it)));
    }
}

/// The kernel the construction starts from: the augmented start rule with
/// the dot at the beginning, under end-of-input lookahead.
pub open spec fn initial_kernel() -> Seq<LR1Item> {
    seq![LR1Item { index: 0, dot_index: 0, lookahead: EOF_TERMINAL }]
}

/// Well-formedness of the whole automaton.
pub open spec fn machine_wf(rules: Seq<Rule>, states: Seq<LR1State>) -> bool {
    &&& states.len() >= 1
    &&& forall|i: int| 0 <= i < states.len() ==> (#[trigger] states[i]).state_number == i
    &&& forall|i: int|
        0 <= i < states.len() ==> state_wf(rules, states.len() as int, #[trigger] states[i])
    &&& forall|i: int|
        0 <= i < states.len() ==> state_transitions_complete(rules, #[trigger] states[i])
    &&& forall|i: int|
        0 <= i < states.len() ==> state_transitions_sound(rules, #[trigger] states[i])
    &&& states[0].kernel@ == initial_kernel()
    &&& forall|i: int| 0 <= i < states.len() ==> state_gotos_ok(rules, states, #[trigger] states[i])
    &&& forall|i: int, j: int|
        0 <= i < j < states.len() ==> !core_same(
            (#[trigger] states[i]).items@,
            (#[trigger] states[j]).items@,
        )
}

/// Copy a vector of items.
fn clone_items(v: &Vec<LR1Item>) -> (r: Vec<LR1Item>)
    ensures
        r@ == v@,
{
    let mut r: Vec<LR1Item> = Vec::new();
    let mut i: usize = 0;
    while i < v.len()
        invariant
            i <= v@.len(),
            r@ == v@.take(i as int),
        decreases v@.len() - i,
    {
        r.push(v[i]);
        proof {
            assert(r@ =~= v@.take(i + 1));
        }
        i += 1;
    }
    proof {
        assert(v@.take(v@.len() as int) =~= v@);
    }
    r
}

/// The sorted symbol set at the dots of an item set, as a value.
pub open spec fn next_symbols_val(rules: Seq<Rule>, items: Seq<LR1Item>) -> Seq<
    TerminalOrNonTerminal,
> {
    choose|r: Seq<TerminalOrNonTerminal>|
        sorted_by(r) && (forall|s: TerminalOrNonTerminal|
            #[trigger] r.contains(s) <==> exists|it: LR1Item| #[trigger] items.contains(it)
                && item_next_symbol(rules, it) == Some(s))
}

/// The sorted set of symbols standing at the dot of some item.
fn next_symbols_of(rules: &Vec<Rule>, items: &Vec<LR1Item>) -> (r: Vec<TerminalOrNonTerminal>)
    requires
        items_valid(rules@, items@),
    ensures
        sorted_by(r@),
        forall|s: TerminalOrNonTerminal|
            r@.contains(s) <==> exists|it: LR1Item| #[trigger] items@.contains(it)
                && item_next_symbol(rules@, it) == Some(s),
        r@ == next_symbols_val(rules@, items@),
{
    let mut r: Vec<TerminalOrNonTerminal> = Vec::new();
    let mut i: usize = 0;
    while i < items.len()
        invariant
            items_valid(rules@, items@),
            i <= items@.len(),
            sorted_by(r@),
            forall|s: TerminalOrNonTerminal|
                r@.contains(s) <==> exists|it: LR1Item| #[trigger] items@.take(i as int).contains(
                    it,
                ) && item_next_symbol(rules@, it) == Some(s),
        decreases items@.len() - i,
    {
        let it = items[i];
        proof {
            assert(items@.contains(items@[i as int]));
        }
        let ghost r0 = r@;
        let next = it.next_symbol(rules);
        match next {
            Some(s) => {
                sorted_insert(&mut r, s);
            },
            None => {},
        }
        proof {
            assert(items@.take(i + 1) =~= items@.take(i as int).push(items@[i as int]));
            assert forall|s: TerminalOrNonTerminal|
                r@.contains(s) <==> exists|x: LR1Item| #[trigger] items@.take(i + 1).contains(x)
                    && item_next_symbol(rules@, x) == Some(s) by {
                if r@.contains(s) {
                    if r0.contains(s) {
                        let x = choose|x: LR1Item| #[trigger] items@.take(i as int).contains(x)
                            && item_next_symbol(rules@, x) == Some(s);
                        assert(items@.take(i + 1).contains(x));
                    } else {
                        assert(item_next_symbol(rules@, it) == Some(s));
                        assert(items@.take(i + 1)[i as int] == it);
                        assert(items@.take(i + 1).contains(it));
                    }
                }
                if exists|x: LR1Item| #[trigger] items@.take(i + 1).contains(x)
                    && item_next_symbol(rules@, x) == Some(s) {
                    let x = choose|x: LR1Item| #[trigger] items@.take(i + 1).contains(x)
                        && item_next_symbol(rules@, x) == Some(s);
                    let k = choose|k: int| 0 <= k < i + 1 && #[trigger] items@.take(i + 1)[k]
                        == x;
                    if k < i {
                        assert(items@.take(i as int)[k] == x);
                        assert(items@.take(i as int).contains(x));
                        assert(r0.contains(s));
                        assert(r@.contains(s));
                    } else {
                        assert(x == it);
                        assert(r@.contains(s));
                    }
                }
            }
        }
        i += 1;
    }
    proof {
        assert(items@.take(items@.len() as int) =~= items@);
        assert(exists|c: Seq<TerminalOrNonTerminal>|
            #[trigger] sorted_by(c) && (forall|s: TerminalOrNonTerminal|
                c.contains(s) <==> exists|it: LR1Item| #[trigger] items@.contains(it)
                    && item_next_symbol(rules@, it) == Some(s))) by {
            assert(sorted_by(r@) && (forall|s: TerminalOrNonTerminal|
                r@.contains(s) <==> exists|it: LR1Item| #[trigger] items@.contains(it)
                    && item_next_symbol(rules@, it) == Some(s)));
        }
        let c = next_symbols_val(rules@, items@);
        assert(sorted_by(c) && (forall|s: TerminalOrNonTerminal|
            #[trigger] c.contains(s) <==> exists|it: LR1Item| #[trigger] items@.contains(it)
                && item_next_symbol(rules@, it) == Some(s)));
        crate::parser_utils::ordered::lemma_sorted_unique(r@, c);
    }
    r
}

/// Advancing the dot preserves the item order.
proof fn lemma_advance_preserves_lt(a: LR1Item, b: LR1Item)
    requires
        a.lt_spec(b),
        a.dot_index < usize::MAX,
        b.dot_index < usize::MAX,
    ensures
        advance_item(a).lt_spec(advance_item(b)),
{
}

/// The goto kernel as a value: the one canonical vector of the items whose
/// dot stands on `s`, advanced past it.
pub open spec fn goto_kernel_val(
    rules: Seq<Rule>,
    items: Seq<LR1Item>,
    s: TerminalOrNonTerminal,
) -> Seq<LR1Item> {
    choose|r: Seq<LR1Item>|
        item_sorted(r) && (forall|x: LR1Item|
            #[trigger] r.contains(x) <==> exists|it: LR1Item| #[trigger] items.contains(it)
                && item_next_symbol(rules, it) == Some(s) && x == advance_item(it))
}

/// The goto kernel: the items of `items` whose dot stands on `s`, with the
/// dot advanced past it.
fn goto_kernel(rules: &Vec<Rule>, items: &Vec<LR1Item>, s: TerminalOrNonTerminal) -> (r: Vec<
    LR1Item,
>)
    requires
        item_sorted(items@),
        items_valid(rules@, items@),
    ensures
        item_sorted(r@),
        items_valid(rules@, r@),
        forall|x: LR1Item|
            r@.contains(x) <==> exists|it: LR1Item| #[trigger] items@.contains(it)
                && item_next_symbol(rules@, it) == Some(s) && x == advance_item(it),
        r@ == goto_kernel_val(rules@, items@, s),
{
    let mut r: Vec<LR1Item> = Vec::new();
    let ghost mut last_src: int = 0;
    let mut i: usize = 0;
    while i < items.len()
        invariant
            item_sorted(items@),
            items_valid(rules@, items@),
            i <= items@.len(),
            item_sorted(r@),
            items_valid(rules@, r@),
            r@.len() > 0 ==> 0 <= last_src < i && r@.last() == advance_item(items@[last_src])
                && items@[last_src].dot_index < usize::MAX,
            forall|x: LR1Item|
                r@.contains(x) <==> exists|it: LR1Item| #[trigger] items@.take(i as int).contains(
                    it,
                ) && item_next_symbol(rules@, it) == Some(s) && x == advance_item(it),
        decreases items@.len() - i,
    {
        let it = items[i];
        proof {
            assert(items@.contains(items@[i as int]));
        }
        let ghost r0 = r@;
        let next = it.next_symbol(rules);
        if next == Some(s) {
            let rhs_len = rules[it.index].rhs.len();
            proof {
                assert(it.dot_index < rhs_len);
            }
            let adv = LR1Item { index: it.index, dot_index: it.dot_index + 1, lookahead: it.lookahead };
            proof {
                assert(adv == advance_item(it));
                if r@.len() > 0 {
                    assert(items@[last_src].lt_spec(items@[i as int]));
                    lemma_advance_preserves_lt(items@[last_src], items@[i as int]);
                    assert(r@.last().lt_spec(adv));
                }
                assert forall|k: int| 0 <= k < r@.len() implies r@[k].lt_spec(adv) by {
                    if k < r@.len() - 1 {
                        assert(r@[k].lt_spec(r@[r@.len() - 1]));
                        LR1Item::lemma_total(r@[k], r@[r@.len() - 1], adv);
                    }
                }
            }
            r.push(adv);
            proof {
                last_src = i as int;
                assert forall|p: int, q: int| 0 <= p < q < r@.len() implies r@[p].lt_spec(
                    r@[q],
                ) by {
                    if q < r@.len() - 1 {
                        assert(r0[p].lt_spec(r0[q]));
                    } else {
                        assert(r@[p] == r0[p]);
                    }
                }
                assert(item_valid(rules@, adv));
                assert forall|x: LR1Item| #[trigger] r@.contains(x) implies item_valid(
                    rules@,
                    x,
                ) by {
                    vstd::seq_lib::lemma_seq_contains_after_push(r0, adv, x);
                    if x != adv {
                        assert(r0.contains(x));
                    }
                }
            }
        }
        proof {
            assert(items@.take(i + 1) =~= items@.take(i as int).push(items@[i as int]));
            assert forall|x: LR1Item|
                r@.contains(x) <==> exists|y: LR1Item| #[trigger] items@.take(i + 1).contains(y)
                    && item_next_symbol(rules@, y) == Some(s) && x == advance_item(y) by {
                if next == Some(s) {
                    vstd::seq_lib::lemma_seq_contains_after_push(
                        r0,
                        advance_item(items@[i as int]),
                        x,
                    );
                }
                if r@.contains(x) {
                    if r0.contains(x) {
                        let y = choose|y: LR1Item| #[trigger] items@.take(i as int).contains(y)
                            && item_next_symbol(rules@, y) == Some(s) && x == advance_item(y);
                        assert(items@.take(i + 1).contains(y));
                    } else {
                        assert(x == advance_item(items@[i as int]));
                        assert(items@.take(i + 1)[i as int] == items@[i as int]);
                        assert(items@.take(i + 1).contains(items@[i as int]));
                    }
                }
                if exists|y: LR1Item| #[trigger] items@.take(i + 1).contains(y)
                    && item_next_symbol(rules@, y) == Some(s) && x == advance_item(y) {
                    let y = choose|y: LR1Item| #[trigger] items@.take(i + 1).contains(y)
                        && item_next_symbol(rules@, y) == Some(s) && x == advance_item(y);
                    let k = choose|k: int| 0 <= k < i + 1 && #[trigger] items@.take(i + 1)[k]
                        == y;
                    if k < i {
                        assert(items@.take(i as int)[k] == y);
                        assert(items@.take(i as int).contains(y));
                        assert(r0.contains(x));
                        assert(r@.contains(x));
                    } else {
                        assert(y == items@[i as int]);
                        assert(r@.contains(x));
                    }
                }
            }
        }
        i += 1;
    }
    proof {
        assert(items@.take(items@.len() as int) =~= items@);
        assert(exists|c: Seq<LR1Item>|
            #[trigger] item_sorted(c) && (forall|x: LR1Item|
                c.contains(x) <==> exists|it: LR1Item| #[trigger] items@.contains(it)
                    && item_next_symbol(rules@, it) == Some(s) && x == advance_item(it))) by {
            assert(item_sorted(r@) && (forall|x: LR1Item|
                r@.contains(x) <==> exists|it: LR1Item| #[trigger] items@.contains(it)
                    && item_next_symbol(rules@, it) == Some(s) && x == advance_item(it)));
        }
        let c = goto_kernel_val(rules@, items@, s);
        assert(item_sorted(c) && (forall|x: LR1Item|
            #[trigger] c.contains(x) <==> exists|it: LR1Item| #[trigger] items@.contains(it)
                && item_next_symbol(rules@, it) == Some(s) && x == advance_item(it)));
        crate::parser_utils::ordered::lemma_sorted_unique(r@, c);
    }
    r
}

/// Find the state whose stored core set equals `c`.
fn find_core_match(cores: &Vec<Vec<LR0Item>>, c: &Vec<LR0Item>) -> (r: Option<usize>)
    ensures
        match r {
            Some(k) => k < cores@.len() && cores@[k as int]@ == c@,
            None => forall|k: int| 0 <= k < cores@.len() ==> (#[trigger] cores@[k])@ != c@,
        },
{
    let mut k: usize = 0;
    while k < cores.len()
        invariant
            k <= cores@.len(),
            forall|q: int| 0 <= q < k ==> (#[trigger] cores@[q])@ != c@,
        decreases cores@.len() - k,
    {
        if core_set_equal(&cores[k], c) {
            return Some(k);
        }
        k += 1;
    }
    None
}

/// Two canonical core sets describing the same cores are equal, so distinct
/// stored core sets mean genuinely different cores.
proof fn lemma_distinct_cores(a: Seq<LR1Item>, b: Seq<LR1Item>, ca: Seq<LR0Item>, cb: Seq<LR0Item>)
    requires
        core_sorted(ca),
        core_sorted(cb),
        is_core_set(a, ca),
        is_core_set(b, cb),
        ca != cb,
    ensures
        !core_same(a, b),
{
    if core_same(a, b) {
        assert forall|c: LR0Item| ca.contains(c) <==> cb.contains(c) by {
            if ca.contains(c) {
                assert(has_core(a, c));
                assert(has_core(b, c));
                assert(cb.contains(c));
            }
            if cb.contains(c) {
                assert(has_core(b, c));
                assert(has_core(a, c));
                assert(ca.contains(c));
            }
        }
        lemma_sorted_unique(ca, cb);
    }
}

/// Merging an item set with another one of the same cores leaves the core
/// set unchanged.
proof fn lemma_merge_core_set(
    a: Seq<LR1Item>,
    b: Seq<LR1Item>,
    merged: Seq<LR1Item>,
    ca: Seq<LR0Item>,
    cb: Seq<LR0Item>,
)
    requires
        is_core_set(a, ca),
        is_core_set(b, cb),
        ca == cb,
        forall|x: LR1Item| #[trigger] merged.contains(x) <==> (a.contains(x) || b.contains(x)),
    ensures
        is_core_set(merged, ca),
{
    assert forall|c: LR0Item| #[trigger]
        ca.contains(c) <==> exists|it: LR1Item| #[trigger] merged.contains(it) && item_core(it)
            == c by {
        if ca.contains(c) {
            let it = choose|it: LR1Item| #[trigger] a.contains(it) && item_core(it) == c;
            assert(merged.contains(it));
        }
        if exists|it: LR1Item| #[trigger] merged.contains(it) && item_core(it) == c {
            let it = choose|it: LR1Item| #[trigger] merged.contains(it) && item_core(it) == c;
            if a.contains(it) {
                assert(ca.contains(c));
            } else {
                assert(b.contains(it));
                assert(cb.contains(c));
            }
        }
    }
}

/// The union of two closed item sets is closed.
proof fn lemma_union_closed(rules: Seq<Rule>, a: Seq<LR1Item>, b: Seq<LR1Item>, merged: Seq<LR1Item>)
    requires
        closed_under_expansion(rules, a.to_set()),
        closed_under_expansion(rules, b.to_set()),
        forall|x: LR1Item| #[trigger] merged.contains(x) <==> (a.contains(x) || b.contains(x)),
    ensures
        closed_under_expansion(rules, merged.to_set()),
{
    assert forall|it: LR1Item| #[trigger] merged.to_set().contains(it) implies closure_step_ok(
        rules,
        merged.to_set(),
        it,
    ) by {
        if a.contains(it) {
            assert(a.to_set().contains(it));
            assert(closure_step_ok(rules, a.to_set(), it));
            assert forall|x: LR1Item| a.to_set().contains(x) implies merged.to_set().contains(
                x,
            ) by {}
            lemma_step_ok_monotone(rules, a.to_set(), merged.to_set(), it);
        } else {
            assert(b.contains(it));
            assert(b.to_set().contains(it));
            assert(closure_step_ok(rules, b.to_set(), it));
            assert forall|x: LR1Item| b.to_set().contains(x) implies merged.to_set().contains(
                x,
            ) by {}
            lemma_step_ok_monotone(rules, b.to_set(), merged.to_set(), it);
        }
    }
}

/// The symbol at the dot depends only on the item's core.
proof fn lemma_next_symbol_of_core(rules: Seq<Rule>, a: LR1Item, b: LR1Item)
    requires
        item_core(a) == item_core(b),
    ensures
        item_next_symbol(rules, a) == item_next_symbol(rules, b),
{
    assert(a.index == b.index && a.dot_index == b.dot_index);
}

/// The ghost image of a state: its views, its number being its index.
pub struct GState {
    pub items: Seq<LR1Item>,
    pub kernel: Seq<LR1Item>,
    pub transitions: Seq<Transition>,
}

pub open spec fn gstate_of(st: LR1State) -> GState {
    GState { items: st.items@, kernel: st.kernel@, transitions: st.transitions@ }
}

pub open spec fn gview(states: Seq<LR1State>) -> Seq<GState> {
    states.map_values(|st: LR1State| gstate_of(st))
}

pub open spec fn gcores_view(cores: Seq<Vec<LR0Item>>) -> Seq<Seq<LR0Item>> {
    cores.map_values(|v: Vec<LR0Item>| v@)
}

/// One symbol of one state's work, at the ghost level: compute the goto
/// closure, merge it into the state with the same cores or allocate a new
/// state, requeue a merge target that grew, and record the transition.
pub open spec fn build_syms_rec(
    rules: Seq<Rule>,
    snap: Seq<LR1Item>,
    syms: Seq<TerminalOrNonTerminal>,
    t: int,
    gs: Seq<GState>,
    gc: Seq<Seq<LR0Item>>,
    pending: Seq<usize>,
    trans: Seq<Transition>,
) -> (Seq<GState>, Seq<Seq<LR0Item>>, Seq<usize>, Seq<Transition>)
    decreases syms.len() - t,
{
    if t < 0 || t >= syms.len() {
        (gs, gc, pending, trans)
    } else {
        let s = syms[t];
        let cl = closure_val(rules, goto_kernel_val(rules, snap, s));
        let cc = core_set_val(cl);
        if exists|k: int| 0 <= k < gc.len() && (#[trigger] gc[k]) == cc {
            let k = choose|k: int| 0 <= k < gc.len() && (#[trigger] gc[k]) == cc;
            let merged = crate::parser_utils::ordered::union_val(gs[k].items, cl);
            let gs2 = gs.update(
                k,
                GState { items: merged, kernel: gs[k].kernel, transitions: gs[k].transitions },
            );
            let pend2 = if merged.len() != gs[k].items.len() {
                pending.push(k as usize)
            } else {
                pending
            };
            build_syms_rec(
                rules,
                snap,
                syms,
                t + 1,
                gs2,
                gc,
                pend2,
                trans.push(Transition { symbol: s, target: k as usize }),
            )
        } else {
            let n = gs.len();
            let gs2 = gs.push(
                GState {
                    items: cl,
                    kernel: goto_kernel_val(rules, snap, s),
                    transitions: Seq::empty(),
                },
            );
            build_syms_rec(
                rules,
                snap,
                syms,
                t + 1,
                gs2,
                gc.push(cc),
                pending.push(n as usize),
                trans.push(Transition { symbol: s, target: n as usize }),
            )
        }
    }
}

/// The whole work-list construction, at the ghost level.
pub open spec fn build_rec(
    rules: Seq<Rule>,
    gs: Seq<GState>,
    gc: Seq<Seq<LR0Item>>,
    pending: Seq<usize>,
    fuel: nat,
) -> Option<Seq<GState>>
    decreases fuel,
{
    if pending.len() == 0 {
        Some(gs)
    } else if fuel == 0 {
        None
    } else {
        let i = pending.first() as int;
        if 0 <= i < gs.len() {
            let snap = gs[i].items;
            let syms = next_symbols_val(rules, snap);
            let step = build_syms_rec(
                rules,
                snap,
                syms,
                0,
                gs,
                gc,
                pending.drop_first(),
                Seq::empty(),
            );
            let gs2 = step.0.update(
                i,
                GState { items: step.0[i].items, kernel: step.0[i].kernel, transitions: step.3 },
            );
            build_rec(rules, gs2, step.1, step.2, (fuel - 1) as nat)
        } else {
            None
        }
    }
}

/// What the construction denotes: from the closure of the initial kernel,
/// with the executable driver's budget.
pub open spec fn build_result(rules: Seq<Rule>) -> Option<Seq<GState>> {
    let items0 = closure_val(rules, initial_kernel());
    let g0 = GState { items: items0, kernel: initial_kernel(), transitions: Seq::empty() };
    build_rec(
        rules,
        seq![g0],
        seq![core_set_val(items0)],
        seq![0usize],
        usize::MAX as nat,
    )
}

/// The automaton is a function of the rule sequence: any two constructions
/// agree in every state's items, kernel and transitions.
pub proof fn lemma_construction_deterministic(
    rules: Seq<Rule>,
    s1: Seq<LR1State>,
    s2: Seq<LR1State>,
)
    requires
        build_result(rules) == Some(gview(s1)),
        build_result(rules) == Some(gview(s2)),
    ensures
        gview(s1) == gview(s2),
        s1.len() == s2.len(),
{
    assert(gview(s1).len() == s1.len());
    assert(gview(s2).len() == s2.len());
}

proof fn lemma_gview_update(states_old: Seq<LR1State>, states_new: Seq<LR1State>, k: int)
    requires
        states_old.len() == states_new.len(),
        0 <= k < states_old.len(),
        forall|q: int| 0 <= q < states_old.len() && q != k ==> states_new[q] == states_old[q],
    ensures
        gview(states_new) == gview(states_old).update(k, gstate_of(states_new[k])),
{
    assert(gview(states_new) =~= gview(states_old).update(k, gstate_of(states_new[k])));
}

proof fn lemma_gview_push(states_old: Seq<LR1State>, states_new: Seq<LR1State>)
    requires
        states_new.len() == states_old.len() + 1,
        forall|q: int| 0 <= q < states_old.len() ==> states_new[q] == states_old[q],
    ensures
        gview(states_new) == gview(states_old).push(gstate_of(states_new[states_old.len() as int])),
{
    assert(gview(states_new) =~= gview(states_old).push(
        gstate_of(states_new[states_old.len() as int]),
    ));
}

proof fn lemma_gcores_push(cores_old: Seq<Vec<LR0Item>>, cores_new: Seq<Vec<LR0Item>>)
    requires
        cores_new.len() == cores_old.len() + 1,
        forall|q: int| 0 <= q < cores_old.len() ==> cores_new[q] == cores_old[q],
    ensures
        gcores_view(cores_new) == gcores_view(cores_old).push(
            cores_new[cores_old.len() as int]@,
        ),
{
    assert(gcores_view(cores_new) =~= gcores_view(cores_old).push(
        cores_new[cores_old.len() as int]@,
    ));
}

/// `k` is queued for (re)processing.
pub open spec fn pending_has(p: Seq<usize>, k: int) -> bool {
    exists|q: int| 0 <= q < p.len() && (#[trigger] p[q]) == k
}

/// The running invariant of the subset construction: every state is well
/// formed; stored core sets are canonical, pairwise distinct, and match
/// their state's items; and any state not on the work list already has a
/// complete transition set.
pub open spec fn build_inv_core(
    rules: Seq<Rule>,
    states: Seq<LR1State>,
    cores: Seq<Vec<LR0Item>>,
    pending: Seq<usize>,
) -> bool {
    &&& states.len() >= 1
    &&& cores.len() == states.len()
    &&& forall|k: int| 0 <= k < states.len() ==> (#[trigger] states[k]).state_number == k
    &&& forall|k: int|
        0 <= k < states.len() ==> state_wf(rules, states.len() as int, #[trigger] states[k])
    &&& forall|k: int|
        0 <= k < states.len() ==> state_transitions_sound(rules, #[trigger] states[k])
    &&& forall|q: int| 0 <= q < pending.len() ==> (#[trigger] pending[q]) < states.len()
    &&& forall|k: int|
        0 <= k < states.len() ==> core_sorted((#[trigger] cores[k])@) && is_core_set(
            states[k].items@,
            cores[k]@,
        )
    &&& forall|p: int, q: int|
        0 <= p < q < states.len() ==> (#[trigger] cores[p])@ != (#[trigger] cores[q])@
    &&& states[0].kernel@ == initial_kernel()
}

pub open spec fn build_inv(
    rules: Seq<Rule>,
    states: Seq<LR1State>,
    cores: Seq<Vec<LR0Item>>,
    pending: Seq<usize>,
) -> bool {
    &&& build_inv_core(rules, states, cores, pending)
    &&& forall|k: int|
        0 <= k < states.len() ==> pending_has(pending, k) || state_transitions_complete(
            rules,
            #[trigger] states[k],
        )
    &&& forall|k: int|
        0 <= k < states.len() ==> pending_has(pending, k) || state_gotos_ok(
            rules,
            states,
            #[trigger] states[k],
        )
}

/// Build the LR(1) automaton for an augmented rule sequence (the synthetic
/// start rule at index 0): the canonical subset construction, merging any
/// goto-derived closure into an existing state with the same LR(0) cores.
/// A state whose item set a merge extends goes back on the work list, so
/// added lookaheads propagate onward until the automaton is stable.  An
/// iteration budget guards the work list, so `None` is returned instead of
/// looping when the budget is exhausted; any grammar whose automaton fits
/// in memory completes long before that.
#[verifier::rlimit(100)]
pub fn generate_lr1_statemachine(rules: &Vec<Rule>) -> (r: Option<Vec<LR1State>>)
    requires
        rules@.len() >= 1,
        rules_wf(rules@),
        tail_nts_have_rules(rules@),
    ensures
        match r {
            Some(states) => machine_wf(rules@, states@) && build_result(rules@) == Some(
                gview(states@),
            ),
            None => build_result(rules@) is None,
        },
{
    let firsts = compute_firsts(rules);
    let mut init_kernel: Vec<LR1Item> = Vec::new();
    init_kernel.push(LR1Item::new(0, 0, EOF_TERMINAL));
    proof {
        assert(init_kernel@ =~= initial_kernel());
        assert forall|it: LR1Item| #[trigger] init_kernel@.contains(it) implies item_valid(
            rules@,
            it,
        ) by {
            let k = choose|k: int| 0 <= k < init_kernel@.len() && init_kernel@[k] == it;
            assert(k == 0);
            assert(rule_wf_at_state(rules@, 0));
        }
    }
    let items0 = lr1_closure_with(rules, &init_kernel, &firsts);
    let core0 = core_set_of(&items0);
    let mut states: Vec<LR1State> = Vec::new();
    states.push(
        LR1State { state_number: 0, items: items0, kernel: init_kernel, transitions: Vec::new() },
    );
    let mut cores: Vec<Vec<LR0Item>> = Vec::new();
    cores.push(core0);
    let mut pending: Vec<usize> = Vec::new();
    pending.push(0);
    let mut fuel: usize = usize::MAX;
    proof {
        assert(pending@[0] == 0);
        assert(pending_has(pending@, 0));
        // the starting configuration is the one the ghost construction
        // starts from
        assert(states@[0].items@ == closure_val(rules@, initial_kernel()));
        assert(gview(states@) =~= seq![
            GState {
                items: closure_val(rules@, initial_kernel()),
                kernel: initial_kernel(),
                transitions: Seq::empty(),
            },
        ]);
        assert(gcores_view(cores@) =~= seq![core_set_val(closure_val(rules@, initial_kernel()))]);
        assert(pending@ =~= seq![0usize]);
        assert(build_rec(rules@, gview(states@), gcores_view(cores@), pending@, fuel as nat)
            == build_result(rules@));
    }
    while pending.len() > 0
        invariant
            rules@.len() >= 1,
            rules_wf(rules@),
            tail_nts_have_rules(rules@),
            firsts_wf(rules@, firsts.entries@),
            build_inv(rules@, states@, cores@, pending@),
            build_rec(rules@, gview(states@), gcores_view(cores@), pending@, fuel as nat)
                == build_result(rules@),
        decreases fuel,
    {
        if fuel == 0 {
            proof {
                assert(build_rec(
                    rules@,
                    gview(states@),
                    gcores_view(cores@),
                    pending@,
                    fuel as nat,
                ) is None);
            }
            return None;
        }
        let ghost f_h = fuel as nat;
        let ghost gs_h = gview(states@);
        let ghost gc_h = gcores_view(cores@);
        let ghost pend_h_full = pending@;
        fuel = fuel - 1;

        let ghost pend_head = pending@;
        // the queue discipline: the oldest-created-but-unprocessed state is
        // taken first, so state numbers come up for processing in order
        let i = pending.remove(0);
        proof {
            assert(pending@ =~= pend_head.drop_first());
            assert(pend_head[0] == i);
            assert(pending_has(pend_head, i as int));
            assert(i < states@.len());
            // states left unqueued keep their completeness and gotos
            assert forall|k: int|
                0 <= k < states@.len() implies pending_has(pending@, k) || k == i
                || (state_transitions_complete(rules@, #[trigger] states@[k])
                    && state_gotos_ok(rules@, states@, states@[k])) by {
                if pending_has(pend_head, k) && k != i {
                    let q = choose|q: int| 0 <= q < pend_head.len() && (#[trigger] pend_head[q])
                        == k;
                    assert(q >= 1);
                    assert(pending@[q - 1] == k);
                    assert(pending_has(pending@, k));
                }
            }
        }

        let snap = clone_items(&states[i].items);
        proof {
            assert(states@[i as int].items@ == snap@);
            assert(gs_h[i as int].items == snap@);
        }
        let syms = next_symbols_of(rules, &snap);
        let ghost gs_in = gview(states@);
        let ghost gc_in = gcores_view(cores@);
        let ghost pend_in = pending@;
        let mut trans: Vec<Transition> = Vec::new();
        let mut t: usize = 0;
        // Becomes true when a merge extends this very state's items, which
        // puts it back on the work list.
        let ghost mut requeued_self: bool = false;
        while t < syms.len()
            invariant
                rules@.len() >= 1,
                rules_wf(rules@),
                tail_nts_have_rules(rules@),
                firsts_wf(rules@, firsts.entries@),
                i < states@.len(),
                build_inv_core(rules@, states@, cores@, pending@),
                forall|k: int|
                    0 <= k < states@.len() ==> pending_has(pending@, k) || k == i as int
                        || state_transitions_complete(rules@, #[trigger] states@[k]),
                forall|k: int|
                    0 <= k < states@.len() ==> pending_has(pending@, k) || k == i as int
                        || state_gotos_ok(rules@, states@, #[trigger] states@[k]),
                item_sorted(snap@),
                items_valid(rules@, snap@),
                is_core_set(snap@, cores@[i as int]@),
                forall|x: LR1Item| #[trigger]
                    snap@.contains(x) ==> states@[i as int].items@.contains(x),
                !requeued_self ==> states@[i as int].items@ == snap@,
                requeued_self ==> pending_has(pending@, i as int),
                sorted_by(syms@),
                forall|s: TerminalOrNonTerminal|
                    syms@.contains(s) <==> exists|it: LR1Item| #[trigger] snap@.contains(it)
                        && item_next_symbol(rules@, it) == Some(s),
                t <= syms@.len(),
                trans@.len() == t,
                forall|p: int| 0 <= p < t ==> (#[trigger] trans@[p]).symbol == syms@[p],
                forall|p: int| 0 <= p < t ==> (#[trigger] trans@[p]).target < states@.len(),
                forall|p: int, it: LR1Item|
                    0 <= p < t && #[trigger] snap@.contains(it) && item_next_symbol(rules@, it)
                        == Some((#[trigger] trans@[p]).symbol) ==> states@[
                        trans@[p].target as int
                    ].items@.contains(advance_item(it)),
                build_syms_rec(
                    rules@,
                    snap@,
                    syms@,
                    t as int,
                    gview(states@),
                    gcores_view(cores@),
                    pending@,
                    trans@,
                ) == build_syms_rec(
                    rules@,
                    snap@,
                    syms@,
                    0,
                    gs_in,
                    gc_in,
                    pend_in,
                    Seq::empty(),
                ),
            decreases syms@.len() - t,
        {
            let ghost t0 = t as int;
            let ghost gs_prev = gview(states@);
            let ghost gc_prev = gcores_view(cores@);
            let ghost pend_prev = pending@;
            let ghost trans_prev = trans@;
            let s = syms[t];
            proof {
                assert(syms@.contains(s));
            }
            let gk = goto_kernel(rules, &snap, s);
            proof {
                let wit = choose|it: LR1Item| #[trigger] snap@.contains(it)
                    && item_next_symbol(rules@, it) == Some(s);
                assert(gk@.contains(advance_item(wit)));
            }
            let closured = lr1_closure_with(rules, &gk, &firsts);
            let ccore = core_set_of(&closured);
            let m = find_core_match(&cores, &ccore);
            let target: usize;
            match m {
                Some(k) => {
                    target = k;
                    let ghost old_states = states@;
                    let ghost old_pending = pending@;
                    let ghost old_items = states@[k as int].items@;
                    let before_len = states[k].items.len();
                    let st = &mut states[k];
                    sorted_union(&mut st.items, &closured);
                    let grew = states[k].items.len() != before_len;
                    if grew {
                        pending.push(k);
                    }
                    proof {
                        let new_items = states@[k as int].items@;
                        assert(states@ == old_states.update(k as int, states@[k as int]));
                        assert(states@[k as int].state_number == old_states[
                            k as int
                        ].state_number);
                        assert(states@[k as int].kernel@ == old_states[k as int].kernel@);
                        assert(states@[k as int].transitions@ == old_states[
                            k as int
                        ].transitions@);
                        assert(forall|q: int|
                            0 <= q < states@.len() && q != k ==> states@[q] == old_states[q]);
                        assert(forall|x: LR1Item| #[trigger]
                            new_items.contains(x) <==> (old_items.contains(x)
                                || closured@.contains(x)));
                        // structural well-formedness of the merged state
                        assert(state_wf(rules@, states@.len() as int, states@[k as int])) by {
                            assert(state_wf(rules@, old_states.len() as int, old_states[
                                k as int
                            ]));
                            assert forall|x: LR1Item| #[trigger]
                                new_items.contains(x) implies item_valid(rules@, x) by {
                                if old_items.contains(x) {
                                } else {
                                    assert(closured@.contains(x));
                                }
                            }
                            assert forall|x: LR1Item| #[trigger]
                                states@[k as int].kernel@.contains(x) implies new_items.to_set(
                            ).contains(x) by {
                                assert(old_items.to_set().contains(x));
                                assert(old_items.contains(x));
                            }
                            lemma_union_closed(rules@, old_items, closured@, new_items);
                        }
                        // the stored core set still matches
                        lemma_merge_core_set(
                            old_items,
                            closured@,
                            new_items,
                            cores@[k as int]@,
                            ccore@,
                        );
                        if !grew {
                            crate::parser_utils::ordered::lemma_sorted_union_unchanged(
                                old_items,
                                new_items,
                                closured@,
                            );
                            assert(new_items == old_items);
                        }
                        if grew {
                            assert(pending@ == old_pending.push(k));
                            assert(pending@[pending@.len() - 1] == k);
                            assert(pending_has(pending@, k as int));
                            if i == k {
                                requeued_self = true;
                            }
                        }
                        // pending membership is only ever extended
                        assert forall|k2: int|
                            pending_has(old_pending, k2) implies pending_has(pending@, k2) by {
                            let q = choose|q: int|
                                0 <= q < old_pending.len() && (#[trigger] old_pending[q]) == k2;
                            assert(pending@[q] == k2);
                        }
                        // completeness bookkeeping per state
                        assert forall|k2: int|
                            0 <= k2 < states@.len() implies pending_has(pending@, k2) || k2
                            == i as int || state_transitions_complete(
                            rules@,
                            #[trigger] states@[k2],
                        ) by {
                            if k2 != k {
                                assert(states@[k2] == old_states[k2]);
                            } else {
                                if grew {
                                    assert(pending_has(pending@, k2));
                                } else {
                                    // nothing changed: the state's views are
                                    // exactly the old ones
                                    assert(states@[k2].items@ == old_states[k2].items@);
                                    if !pending_has(old_pending, k2) && k2 != i as int {
                                        assert(state_transitions_complete(
                                            rules@,
                                            old_states[k2],
                                        ));
                                        lemma_state_complete_transfer(
                                            rules@,
                                            old_states[k2],
                                            states@[k2],
                                        );
                                    }
                                }
                            }
                        }
                        // soundness per state
                        assert forall|k2: int|
                            0 <= k2 < states@.len() implies state_transitions_sound(
                            rules@,
                            #[trigger] states@[k2],
                        ) by {
                            if k2 != k {
                                assert(states@[k2] == old_states[k2]);
                            } else {
                                assert(state_transitions_sound(rules@, old_states[k2]));
                                assert forall|s2: TerminalOrNonTerminal|
                                    #[trigger] has_transition(
                                        states@[k2].transitions@,
                                        s2,
                                    ) implies exists|it: LR1Item| #[trigger]
                                    states@[k2].items@.contains(it) && item_next_symbol(
                                        rules@,
                                        it,
                                    ) == Some(s2) by {
                                    assert(has_transition(old_states[k2].transitions@, s2));
                                    let it = choose|it: LR1Item| #[trigger]
                                        old_states[k2].items@.contains(it) && item_next_symbol(
                                            rules@,
                                            it,
                                        ) == Some(s2);
                                    assert(new_items.contains(it));
                                    assert(states@[k2].items@.contains(it));
                                }
                            }
                        }
                        // items only ever grow, state for state
                        assert forall|m: int, x: LR1Item|
                            0 <= m < old_states.len() && #[trigger] old_states[
                                m
                            ].items@.contains(x) implies states@[m].items@.contains(x) by {
                            if m == k {
                                assert(new_items.contains(x));
                            }
                        }
                        // goto correctness per unqueued state
                        assert forall|k2: int|
                            0 <= k2 < states@.len() implies pending_has(pending@, k2) || k2
                            == i as int || state_gotos_ok(
                            rules@,
                            states@,
                            #[trigger] states@[k2],
                        ) by {
                            if k2 == k && grew {
                                assert(pending_has(pending@, k2));
                            } else if !pending_has(old_pending, k2) && k2 != i as int {
                                assert(state_gotos_ok(rules@, old_states, old_states[k2]));
                                assert(states@[k2].items@ == old_states[k2].items@);
                                assert(states@[k2].transitions@ == old_states[
                                    k2
                                ].transitions@);
                                lemma_gotos_ok_monotone(
                                    rules@,
                                    old_states,
                                    states@,
                                    old_states[k2],
                                    states@[k2],
                                );
                            }
                        }
                        // what was just merged is available in the target
                        assert forall|x: LR1Item| #[trigger]
                            closured@.contains(x) implies states@[target as int].items@.contains(
                            x,
                        ) by {
                            assert(new_items.contains(x));
                        }
                        // ghost-level image of this merge
                        assert(gview(states@) == gs_prev.update(
                            k as int,
                            GState {
                                items: crate::parser_utils::ordered::union_val(
                                    gs_prev[k as int].items,
                                    closured@,
                                ),
                                kernel: gs_prev[k as int].kernel,
                                transitions: gs_prev[k as int].transitions,
                            },
                        )) by {
                            assert(gs_prev[k as int].items == old_items);
                            assert(new_items == crate::parser_utils::ordered::union_val(
                                old_items,
                                closured@,
                            ));
                            lemma_gview_update(old_states, states@, k as int);
                            assert(gstate_of(states@[k as int]) == (GState {
                                items: new_items,
                                kernel: gs_prev[k as int].kernel,
                                transitions: gs_prev[k as int].transitions,
                            }));
                        }
                        assert(gcores_view(cores@) == gc_prev);
                        // earlier transitions' targets kept their items
                        assert forall|p: int, it: LR1Item|
                            0 <= p < t && #[trigger] snap@.contains(it) && item_next_symbol(
                                rules@,
                                it,
                            ) == Some((#[trigger] trans@[p]).symbol) implies states@[
                            trans@[p].target as int
                        ].items@.contains(advance_item(it)) by {
                            assert(old_states[trans@[p].target as int].items@.contains(
                                advance_item(it),
                            ));
                        }
                        // the snapshot is still contained in state `i`
                        assert forall|x: LR1Item| #[trigger]
                            snap@.contains(x) implies states@[i as int].items@.contains(x) by {
                            if i == k {
                                assert(old_items.contains(x));
                            }
                        }
                        if !requeued_self {
                            assert(states@[i as int].items@ == snap@) by {
                                if i == k {
                                    assert(!grew);
                                }
                            }
                        }
                        if requeued_self {
                            assert(pending_has(pending@, i as int));
                        }
                    }
                },
                None => {
                    target = states.len();
                    let n = states.len();
                    let ghost old_states = states@;
                    let ghost old_cores = cores@;
                    let ghost old_pending = pending@;
                    states.push(
                        LR1State {
                            state_number: n,
                            items: closured,
                            kernel: gk,
                            transitions: Vec::new(),
                        },
                    );
                    cores.push(ccore);
                    pending.push(n);
                    proof {
                        assert(forall|q: int|
                            0 <= q < old_states.len() ==> states@[q] == old_states[q]);
                        assert(forall|q: int|
                            0 <= q < old_cores.len() ==> cores@[q] == old_cores[q]);
                        assert(pending@ == old_pending.push(n));
                        assert(pending@[pending@.len() - 1] == n);
                        assert(pending_has(pending@, n as int));
                        assert forall|k2: int|
                            pending_has(old_pending, k2) implies pending_has(pending@, k2) by {
                            let q = choose|q: int|
                                0 <= q < old_pending.len() && (#[trigger] old_pending[q]) == k2;
                            assert(pending@[q] == k2);
                        }
                        assert(state_wf(rules@, states@.len() as int, states@[n as int])) by {
                            assert(item_sorted(closured@));
                            assert(items_valid(rules@, closured@));
                        }
                        assert forall|k2: int|
                            0 <= k2 < states@.len() implies state_wf(
                            rules@,
                            states@.len() as int,
                            #[trigger] states@[k2],
                        ) by {
                            if k2 < n {
                                assert(state_wf(
                                    rules@,
                                    old_states.len() as int,
                                    old_states[k2],
                                ));
                            }
                        }
                        assert(state_transitions_sound(rules@, states@[n as int]));
                        assert forall|p: int, q: int|
                            0 <= p < q < states@.len() implies (#[trigger] cores@[p])@
                            != (#[trigger] cores@[q])@ by {
                            if q == n {
                                assert(old_cores[p]@ != ccore@);
                            }
                        }
                        if requeued_self {
                            let q = choose|q: int|
                                0 <= q < old_pending.len() && (#[trigger] old_pending[q])
                                    == i as int;
                            assert(pending@[q] == i);
                            assert(pending_has(pending@, i as int));
                        }
                        // goto correctness per unqueued state
                        assert forall|k2: int|
                            0 <= k2 < states@.len() implies pending_has(pending@, k2) || k2
                            == i as int || state_gotos_ok(
                            rules@,
                            states@,
                            #[trigger] states@[k2],
                        ) by {
                            if k2 == n as int {
                                assert(pending_has(pending@, k2));
                            } else if !pending_has(old_pending, k2) && k2 != i as int {
                                assert(state_gotos_ok(rules@, old_states, old_states[k2]));
                                lemma_gotos_ok_monotone(
                                    rules@,
                                    old_states,
                                    states@,
                                    old_states[k2],
                                    states@[k2],
                                );
                            }
                        }
                        // the fresh state's items are exactly the closure
                        assert forall|x: LR1Item| #[trigger]
                            closured@.contains(x) implies states@[target as int].items@.contains(
                            x,
                        ) by {}
                        // ghost-level image of this allocation
                        assert(gview(states@) == gs_prev.push(
                            GState { items: closured@, kernel: gk@, transitions: Seq::empty() },
                        )) by {
                            lemma_gview_push(old_states, states@);
                            assert(gstate_of(states@[n as int]) == (GState {
                                items: closured@,
                                kernel: gk@,
                                transitions: Seq::empty(),
                            }));
                        }
                        assert(gcores_view(cores@) == gc_prev.push(ccore@)) by {
                            lemma_gcores_push(old_cores, cores@);
                        }
                        assert forall|k2: int|
                            0 <= k2 < gc_prev.len() implies (#[trigger] gc_prev[k2])
                            != ccore@ by {
                            assert(gc_prev[k2] == old_cores[k2]@);
                            assert(old_cores[k2]@ != ccore@);
                        }
                        // earlier transitions' targets kept their items
                        assert forall|p: int, it: LR1Item|
                            0 <= p < t && #[trigger] snap@.contains(it) && item_next_symbol(
                                rules@,
                                it,
                            ) == Some((#[trigger] trans@[p]).symbol) implies states@[
                            trans@[p].target as int
                        ].items@.contains(advance_item(it)) by {
                            assert(old_states[trans@[p].target as int].items@.contains(
                                advance_item(it),
                            ));
                        }
                    }
                },
            }
            trans.push(Transition { symbol: s, target });
            proof {
                assert(forall|p: int|
                    0 <= p < t ==> (#[trigger] trans@[p]).symbol == syms@[p]);
                assert(trans@[t as int].symbol == syms@[t as int]);
                assert(trans@[t as int].target == target);
                assert forall|p: int, it: LR1Item|
                    0 <= p < t + 1 && #[trigger] snap@.contains(it) && item_next_symbol(
                        rules@,
                        it,
                    ) == Some((#[trigger] trans@[p]).symbol) implies states@[
                    trans@[p].target as int
                ].items@.contains(advance_item(it)) by {
                    if p == t {
                        assert(trans@[p].symbol == s);
                        assert(gk@.contains(advance_item(it)));
                        assert(closured@.to_set().contains(advance_item(it)));
                        assert(closured@.contains(advance_item(it)));
                        assert(states@[target as int].items@.contains(advance_item(it)));
                    }
                }
            }
            t += 1;
            proof {
                // the ghost construction takes the very same step
                assert(syms@[t0] == s);
                assert(gk@ == goto_kernel_val(rules@, snap@, s));
                assert(closured@ == closure_val(rules@, goto_kernel_val(rules@, snap@, s)));
                assert(ccore@ == core_set_val(
                    closure_val(rules@, goto_kernel_val(rules@, snap@, s)),
                ));
                match m {
                    Some(k) => {
                        assert(gc_prev[k as int] == cores@[k as int]@);
                        assert(gc_prev[k as int] == ccore@);
                        assert(exists|k2: int|
                            0 <= k2 < gc_prev.len() && (#[trigger] gc_prev[k2]) == ccore@);
                        assert forall|k2: int|
                            0 <= k2 < gc_prev.len() && (#[trigger] gc_prev[k2])
                                == ccore@ implies k2 == k as int by {
                            assert(gc_prev[k2] == cores@[k2]@);
                            if k2 != k as int {
                                assert(cores@[k2]@ != cores@[k as int]@);
                            }
                        }
                        assert((k as int) as usize == k);
                    },
                    None => {
                        assert(forall|k2: int|
                            0 <= k2 < gc_prev.len() ==> (#[trigger] gc_prev[k2]) != ccore@);
                        assert(gs_prev.len() == target as int);
                        assert((target as int) as usize == target);
                    },
                }
                assert(build_syms_rec(
                    rules@,
                    snap@,
                    syms@,
                    t0,
                    gs_prev,
                    gc_prev,
                    pend_prev,
                    trans_prev,
                ) == build_syms_rec(
                    rules@,
                    snap@,
                    syms@,
                    t0 + 1,
                    gview(states@),
                    gcores_view(cores@),
                    pending@,
                    trans@,
                ));
                assert(build_syms_rec(
                    rules@,
                    snap@,
                    syms@,
                    t as int,
                    gview(states@),
                    gcores_view(cores@),
                    pending@,
                    trans@,
                ) == build_syms_rec(rules@, snap@, syms@, 0, gs_in, gc_in, pend_in, Seq::empty()));
            }
        }
        // Record the transitions computed for state `i`.
        let ghost old_states = states@;
        let sti = &mut states[i];
        sti.transitions = trans;
        proof {
            assert(states@ == old_states.update(i as int, states@[i as int]));
            assert(states@[i as int].items@ == old_states[i as int].items@);
            assert(states@[i as int].kernel@ == old_states[i as int].kernel@);
            assert(states@[i as int].transitions@ == trans@);
            assert(forall|q: int|
                0 <= q < states@.len() && q != i ==> states@[q] == old_states[q]);
            // well-formedness with the new transition list
            assert(state_wf(rules@, states@.len() as int, states@[i as int])) by {
                assert(state_wf(rules@, old_states.len() as int, old_states[i as int]));
                assert forall|p: int, q: int|
                    0 <= p < q < trans@.len() implies sym_lt_spec(
                    trans@[p].symbol,
                    trans@[q].symbol,
                ) by {
                    assert(trans@[p].symbol == syms@[p]);
                    assert(trans@[q].symbol == syms@[q]);
                    assert(syms@[p].lt_spec(syms@[q]));
                }
            }
            // completeness of state `i`: either it was requeued, or its
            // items are exactly the snapshot the transitions cover
            if !requeued_self {
                assert(state_transitions_complete(rules@, states@[i as int])) by {
                    assert forall|it: LR1Item| #[trigger]
                        states@[i as int].items@.contains(it) implies (item_next_symbol(
                        rules@,
                        it,
                    ) matches Some(s2) ==> has_transition(trans@, s2)) by {
                        if item_next_symbol(rules@, it) is Some {
                            let s2 = item_next_symbol(rules@, it)->0;
                            assert(snap@.contains(it));
                            assert(syms@.contains(s2));
                            let p = choose|p: int| 0 <= p < syms@.len() && syms@[p] == s2;
                            assert(trans@[p].symbol == s2);
                            assert(has_transition(trans@, s2));
                        }
                    }
                }
            }
            assert forall|k2: int|
                0 <= k2 < states@.len() implies pending_has(pending@, k2)
                || state_transitions_complete(rules@, #[trigger] states@[k2]) by {
                if k2 == i as int {
                    if requeued_self {
                        assert(pending_has(pending@, k2));
                    }
                } else {
                    if !pending_has(pending@, k2) {
                        assert(state_transitions_complete(rules@, old_states[k2]));
                    }
                }
            }
            // goto correctness of state `i`
            if !requeued_self {
                assert(state_gotos_ok(rules@, states@, states@[i as int])) by {
                    assert forall|it: LR1Item, q: int|
                        #[trigger] states@[i as int].items@.contains(it) && 0 <= q < states@[
                            i as int
                        ].transitions@.len() && item_next_symbol(rules@, it) == Some(
                            (#[trigger] states@[i as int].transitions@[q]).symbol,
                        ) implies states@[i as int].transitions@[q].target < states@.len()
                        && states@[states@[i as int].transitions@[q].target as int].items@.contains(
                        advance_item(it),
                    ) by {
                        assert(snap@.contains(it));
                        assert(states@[i as int].transitions@[q] == trans@[q]);
                        assert(states@[trans@[q].target as int].items@ == old_states[
                            trans@[q].target as int
                        ].items@);
                        assert(old_states[trans@[q].target as int].items@.contains(
                            advance_item(it),
                        ));
                    }
                }
            }
            assert forall|k2: int|
                0 <= k2 < states@.len() implies pending_has(pending@, k2) || state_gotos_ok(
                rules@,
                states@,
                #[trigger] states@[k2],
            ) by {
                if k2 == i as int {
                    if requeued_self {
                        assert(pending_has(pending@, k2));
                    }
                } else {
                    if !pending_has(pending@, k2) {
                        assert(state_gotos_ok(rules@, old_states, old_states[k2]));
                        assert forall|m: int, x: LR1Item|
                            0 <= m < old_states.len() && #[trigger] old_states[
                                m
                            ].items@.contains(x) implies states@[m].items@.contains(x) by {
                            if m == i as int {
                                assert(states@[m].items@ == old_states[m].items@);
                            }
                        }
                        lemma_gotos_ok_monotone(
                            rules@,
                            old_states,
                            states@,
                            old_states[k2],
                            states@[k2],
                        );
                    }
                }
            }
            // soundness of state `i`
            assert(state_transitions_sound(rules@, states@[i as int])) by {
                assert forall|s2: TerminalOrNonTerminal|
                    #[trigger] has_transition(
                        states@[i as int].transitions@,
                        s2,
                    ) implies exists|it: LR1Item| #[trigger]
                    states@[i as int].items@.contains(it) && item_next_symbol(rules@, it)
                        == Some(s2) by {
                    let q = choose|q: int|
                        0 <= q < states@[i as int].transitions@.len()
                            && (#[trigger] states@[i as int].transitions@[q]).symbol == s2;
                    assert(states@[i as int].transitions@[q] == trans@[q]);
                    assert(trans@[q].symbol == syms@[q]);
                    assert(syms@.contains(syms@[q]));
                    let it = choose|it: LR1Item| #[trigger] snap@.contains(it)
                        && item_next_symbol(rules@, it) == Some(syms@[q]);
                    assert(old_states[i as int].items@.contains(it));
                    assert(states@[i as int].items@.contains(it));
                }
            }
            // soundness of the others
            assert forall|k2: int|
                0 <= k2 < states@.len() implies state_transitions_sound(
                rules@,
                #[trigger] states@[k2],
            ) by {
                if k2 != i as int {
                    assert(states@[k2] == old_states[k2]);
                }
            }
            // the ghost construction's whole-state step matches
            assert(build_syms_rec(
                rules@,
                snap@,
                syms@,
                syms@.len() as int,
                gview(old_states),
                gcores_view(cores@),
                pending@,
                trans@,
            ) == (gview(old_states), gcores_view(cores@), pending@, trans@));
            assert(build_syms_rec(rules@, snap@, syms@, 0, gs_in, gc_in, pend_in, Seq::empty())
                == (gview(old_states), gcores_view(cores@), pending@, trans@));
            assert(gview(states@) == gview(old_states).update(
                i as int,
                GState {
                    items: gview(old_states)[i as int].items,
                    kernel: gview(old_states)[i as int].kernel,
                    transitions: trans@,
                },
            )) by {
                lemma_gview_update(old_states, states@, i as int);
                assert(gstate_of(states@[i as int]) == (GState {
                    items: gview(old_states)[i as int].items,
                    kernel: gview(old_states)[i as int].kernel,
                    transitions: trans@,
                }));
            }
            assert(build_rec(rules@, gs_h, gc_h, pend_h_full, f_h) == build_rec(
                rules@,
                gview(states@),
                gcores_view(cores@),
                pending@,
                fuel as nat,
            )) by {
                assert(pend_h_full.len() > 0);
                assert(f_h > 0);
                assert(pend_h_full.first() == i);
                assert((i as int) < gs_h.len());
                assert(gs_h[i as int].items == snap@);
                assert(syms@ == next_symbols_val(rules@, snap@));
                assert(gs_in == gs_h);
                assert(gc_in == gc_h);
                assert(pend_in == pend_h_full.drop_first());
                assert(f_h - 1 == fuel as nat);
            }
            assert(build_rec(rules@, gview(states@), gcores_view(cores@), pending@, fuel as nat)
                == build_result(rules@));
        }
    }
    proof {
        assert forall|k: int| 0 <= k < states@.len() implies state_transitions_complete(
            rules@,
            #[trigger] states@[k],
        ) && state_gotos_ok(rules@, states@, states@[k]) by {
            assert(!pending_has(pending@, k));
        }
        assert forall|p: int, q: int| 0 <= p < q < states@.len() implies !core_same(
            (#[trigger] states@[p]).items@,
            (#[trigger] states@[q]).items@,
        ) by {
            lemma_distinct_cores(
                states@[p].items@,
                states@[q].items@,
                cores@[p]@,
                cores@[q]@,
            );
        }
        assert(machine_wf(rules@, states@));
    }
    Some(states)
}

/// State-merging correctness: when two states step on the same symbol into
/// the same target — as they must when their goto closures share a core —
/// the target holds the dot-advanced items of both sources.  A state kept
/// by a merge therefore carries the lookaheads every path into it
/// contributes.
pub proof fn lemma_merged_state_unions_lookaheads(
    rules: Seq<Rule>,
    states: Seq<LR1State>,
    a: int,
    b: int,
    sym: TerminalOrNonTerminal,
    ita: LR1Item,
    itb: LR1Item,
    qa: int,
    qb: int,
)
    requires
        machine_wf(rules, states),
        0 <= a < states.len(),
        0 <= b < states.len(),
        states[a].items@.contains(ita),
        item_next_symbol(rules, ita) == Some(sym),
        states[b].items@.contains(itb),
        item_next_symbol(rules, itb) == Some(sym),
        0 <= qa < states[a].transitions@.len(),
        states[a].transitions@[qa].symbol == sym,
        0 <= qb < states[b].transitions@.len(),
        states[b].transitions@[qb].symbol == sym,
        states[a].transitions@[qa].target == states[b].transitions@[qb].target,
    ensures
        states[a].transitions@[qa].target < states.len(),
        states[states[a].transitions@[qa].target as int].items@.contains(advance_item(ita)),
        states[states[a].transitions@[qa].target as int].items@.contains(advance_item(itb)),
{
    assert(state_gotos_ok(rules, states, states[a]));
    assert(state_gotos_ok(rules, states, states[b]));
    assert(states[a].items@.contains(ita) && 0 <= qa < states[a].transitions@.len()
        && item_next_symbol(rules, ita) == Some(states[a].transitions@[qa].symbol));
    assert(states[b].items@.contains(itb) && 0 <= qb < states[b].transitions@.len()
        && item_next_symbol(rules, itb) == Some(states[b].transitions@[qb].symbol));
}

/// Completeness only reads the state's item and transition views, so it
/// carries over to any state with the same views.
proof fn lemma_state_complete_transfer(rules: Seq<Rule>, a: LR1State, b: LR1State)
    requires
        a.items@ == b.items@,
        a.transitions@ == b.transitions@,
        state_transitions_complete(rules, a),
    ensures
        state_transitions_complete(rules, b),
{
    assert forall|it: LR1Item| #[trigger]
        b.items@.contains(it) implies (item_next_symbol(rules, it) matches Some(s2)
        ==> has_transition(b.transitions@, s2)) by {
        assert(a.items@.contains(it));
        if item_next_symbol(rules, it) is Some {
            let s2 = item_next_symbol(rules, it)->0;
            assert(has_transition(a.transitions@, s2));
        }
    }
}

/// Helper naming of per-index rule well-formedness, to guide instantiation.
pub open spec fn rule_wf_at_state(rules: Seq<Rule>, i: int) -> bool {
    0 <= i < rules.len() ==> rules[i].rhs@.len() >= 1
}


/// Render the whole automaton: each state's items and transitions.
pub fn format_lr1_state_machine(rules: &Vec<Rule>, statemachine: &Vec<LR1State>) -> (r: String)
    requires
        forall|k: int|
            0 <= k < statemachine@.len() ==> items_valid(
                rules@,
                (#[trigger] statemachine@[k]).items@,
            ),
{
    let mut s = String::new();
    let mut i: usize = 0;
    while i < statemachine.len()
        invariant
            forall|k: int|
                0 <= k < statemachine@.len() ==> items_valid(
                    rules@,
                    (#[trigger] statemachine@[k]).items@,
                ),
            i <= statemachine@.len(),
        decreases statemachine@.len() - i,
    {
        s.append("state ");
        let num = crate::parser_utils::render::format_usize(statemachine[i].state_number);
        s.append(num.as_str());
        s.append(":\n");
        let items = crate::parser_types::lr1item::format_lr1_set(rules, &statemachine[i].items);
        s.append(items.as_str());
        s.append("\ntransitions:\n");
        let mut t: usize = 0;
        while t < statemachine[i].transitions.len()
            invariant
                i < statemachine@.len(),
                t <= statemachine@[i as int].transitions@.len(),
            decreases statemachine@[i as int].transitions@.len() - t,
        {
            let tr = statemachine[i].transitions[t];
            s.append("\t");
            let lab = crate::parser_utils::render::symbol_label(&tr.symbol);
            s.append(lab.as_str());
            s.append(" -> state ");
            let tnum = crate::parser_utils::render::format_usize(tr.target);
            s.append(tnum.as_str());
            s.append("\n");
            t += 1;
        }
        i += 1;
    }
    s
}

} // verus!

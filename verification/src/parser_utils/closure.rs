//! The LR(1) closure engine.  The closure of a kernel is the least item set
//! that includes the kernel and is closed under the expansion rule: when the
//! symbol at an item's dot is a non-terminal `B`, every rule for `B` joins
//! as a fresh item with dot 0, under every lookahead the item passes on
//! (the terminal after `B`, FIRST of the non-terminal after `B`, or the
//! item's own lookahead when nothing follows `B`).  The contract pins the
//! result exactly: it includes the kernel, is closed, and is contained in
//! every closed superset of the kernel; together with canonical ordering
//! this makes the closure a function of its arguments.

use vstd::prelude::*;
use crate::parser_types::lr1item::{item_next_symbol, item_sorted, item_valid, items_valid, LR1Item};
use crate::parser_types::rule::{rules_wf, Rule};
use crate::parser_types::terminal_or_nonterminal::TerminalOrNonTerminal;
use crate::parser_utils::first::{
    compute_firsts, first_of, first_scan, firsts_has_key, firsts_wf, FirstSets,
};
use crate::parser_utils::ordered::{
    lemma_sorted_len_le_card, sorted_by, sorted_contains, sorted_insert,
};

verus! {

/// Every non-terminal occurring at position 1 or later of some right-hand
/// side has at least one rule of its own.  The closure looks FIRST sets up
/// for exactly those non-terminals, and the FIRST map has an entry exactly
/// for every left-hand side.
pub open spec fn tail_nts_have_rules(rules: Seq<Rule>) -> bool {
    forall|i: int, p: int|
        0 <= i < rules.len() && 1 <= p < rules[i].rhs@.len() && (#[trigger] rules[i].rhs@[p])
            is NonTerminal ==> exists|j: int|
            0 <= j < rules.len() && (#[trigger] rules[j].lhs) == rules[i].rhs@[p]->NonTerminal_0
}

/// The lookaheads an item passes to the items it spawns: the terminal right
/// after the dotted non-terminal, FIRST of the non-terminal right after it,
/// or the item's own lookahead when the dotted symbol is last.
pub open spec fn lookaheads_of(rules: Seq<Rule>, it: LR1Item) -> Set<u64> {
    let rhs = rules[it.index as int].rhs@;
    if it.dot_index + 1 < rhs.len() {
        match rhs[it.dot_index + 1] {
            TerminalOrNonTerminal::Terminal(t) => Set::empty().insert(t),
            TerminalOrNonTerminal::NonTerminal(c) => first_of(rules, c),
        }
    } else {
        Set::empty().insert(it.lookahead)
    }
}

/// All items spawned by `it` are in `s`.
pub open spec fn closure_step_ok(rules: Seq<Rule>, s: Set<LR1Item>, it: LR1Item) -> bool {
    match item_next_symbol(rules, it) {
        Some(TerminalOrNonTerminal::NonTerminal(b)) => forall|j: usize, la: u64|
            j < rules.len() && rules[j as int].lhs == b && lookaheads_of(rules, it).contains(la)
                ==> #[trigger] s.contains(LR1Item { index: j, dot_index: 0, lookahead: la }),
        _ => true,
    }
}

/// `s` is closed under the expansion rule.
pub open spec fn closed_under_expansion(rules: Seq<Rule>, s: Set<LR1Item>) -> bool {
    forall|it: LR1Item| #[trigger] s.contains(it) ==> closure_step_ok(rules, s, it)
}

/// Every item of the sequence `s` is in the set `t`.
pub open spec fn set_includes_seq(t: Set<LR1Item>, s: Seq<LR1Item>) -> bool {
    forall|it: LR1Item| #[trigger] s.contains(it) ==> t.contains(it)
}

/// `s` is a subset of `t`.
pub open spec fn set_within(s: Set<LR1Item>, t: Set<LR1Item>) -> bool {
    forall|it: LR1Item| #[trigger] s.contains(it) ==> t.contains(it)
}

/// `s` is the closure of `kernel`: it includes the kernel, is closed under
/// expansion, and is contained in every closed superset of the kernel — the
/// least such set, which is unique.
pub open spec fn is_closure_of(rules: Seq<Rule>, kernel: Seq<LR1Item>, s: Set<LR1Item>) -> bool {
    &&& set_includes_seq(s, kernel)
    &&& closed_under_expansion(rules, s)
    &&& forall|t: Set<LR1Item>|
        #[trigger] closed_under_expansion(rules, t) && set_includes_seq(t, kernel) ==> set_within(
            s,
            t,
        )
}

// ---------------------------------------------------------------------
// A finite universe of candidate items, for termination of the fixed
// point: every item the closure can ever contain is a valid item whose
// lookahead is either a kernel lookahead or a terminal occurring in the
// grammar.
// ---------------------------------------------------------------------

/// The terminals occurring in a right-hand side.
pub open spec fn rhs_terms(rhs: Seq<TerminalOrNonTerminal>) -> Seq<u64>
    decreases rhs.len(),
{
    if rhs.len() == 0 {
        Seq::empty()
    } else {
        rhs_terms(rhs.drop_last()) + (match rhs.last() {
            TerminalOrNonTerminal::Terminal(t) => seq![t],
            TerminalOrNonTerminal::NonTerminal(_) => Seq::empty(),
        })
    }
}

/// The terminals occurring anywhere in the rules.
pub open spec fn rules_terms(rules: Seq<Rule>) -> Seq<u64>
    decreases rules.len(),
{
    if rules.len() == 0 {
        Seq::empty()
    } else {
        rules_terms(rules.drop_last()) + rhs_terms(rules.last().rhs@)
    }
}

/// The lookaheads of a sequence of items.
pub open spec fn items_las(items: Seq<LR1Item>) -> Seq<u64>
    decreases items.len(),
{
    if items.len() == 0 {
        Seq::empty()
    } else {
        items_las(items.drop_last()).push(items.last().lookahead)
    }
}

/// All items with rule index `j`, dot positions `0..=d`, and a lookahead
/// from `las`.
pub open spec fn items_dots(j: usize, d: int, las: Seq<u64>) -> Seq<LR1Item>
    decreases d + 1,
{
    if d < 0 {
        Seq::empty()
    } else {
        items_dots(j, d - 1, las) + las.map_values(
            |la: u64| LR1Item { index: j, dot_index: d as usize, lookahead: la },
        )
    }
}

/// All valid items of the rules from index `i` on, with lookaheads from
/// `las`.
pub open spec fn items_univ(rules: Seq<Rule>, i: int, las: Seq<u64>) -> Seq<LR1Item>
    decreases rules.len() - i,
{
    if i < 0 || i >= rules.len() {
        Seq::empty()
    } else {
        items_dots(i as usize, rules[i].rhs@.len() as int, las) + items_univ(rules, i + 1, las)
    }
}

proof fn lemma_rhs_terms_contains(rhs: Seq<TerminalOrNonTerminal>, p: int)
    requires
        0 <= p < rhs.len(),
        rhs[p] is Terminal,
    ensures
        rhs_terms(rhs).contains(rhs[p]->Terminal_0),
    decreases rhs.len(),
{
    if p == rhs.len() - 1 {
        let t = rhs[p]->Terminal_0;
        assert(rhs_terms(rhs).contains(t)) by {
            let tail: Seq<u64> = seq![t];
            assert(tail[0] == t);
            assert(rhs_terms(rhs) == rhs_terms(rhs.drop_last()) + tail);
            assert(rhs_terms(rhs)[rhs_terms(rhs.drop_last()).len() as int] == t);
        }
    } else {
        lemma_rhs_terms_contains(rhs.drop_last(), p);
        let t = rhs[p]->Terminal_0;
        let inner = rhs_terms(rhs.drop_last());
        let k = choose|k: int| 0 <= k < inner.len() && inner[k] == t;
        assert(rhs_terms(rhs)[k] == t);
    }
}

proof fn lemma_rules_terms_contains(rules: Seq<Rule>, i: int, t: u64)
    requires
        0 <= i < rules.len(),
        rhs_terms(rules[i].rhs@).contains(t),
    ensures
        rules_terms(rules).contains(t),
    decreases rules.len(),
{
    if i == rules.len() - 1 {
        let inner = rhs_terms(rules.last().rhs@);
        let k = choose|k: int| 0 <= k < inner.len() && inner[k] == t;
        assert(rules_terms(rules)[rules_terms(rules.drop_last()).len() + k] == t);
    } else {
        assert(rules.drop_last()[i] == rules[i]);
        lemma_rules_terms_contains(rules.drop_last(), i, t);
        let inner = rules_terms(rules.drop_last());
        let k = choose|k: int| 0 <= k < inner.len() && inner[k] == t;
        assert(rules_terms(rules)[k] == t);
    }
}

proof fn lemma_items_las_contains(items: Seq<LR1Item>, k: int)
    requires
        0 <= k < items.len(),
    ensures
        items_las(items).contains(items[k].lookahead),
    decreases items.len(),
{
    if k == items.len() - 1 {
        assert(items_las(items).last() == items.last().lookahead);
        assert(items_las(items).contains(items_las(items).last()));
    } else {
        lemma_items_las_contains(items.drop_last(), k);
        let inner = items_las(items.drop_last());
        let j = choose|j: int| 0 <= j < inner.len() && inner[j] == items.drop_last()[k].lookahead;
        assert(items_las(items)[j] == items[k].lookahead);
    }
}

/// FIRST sets only ever hold terminals that occur in the grammar.
proof fn lemma_first_scan_sub_terms(
    rules: Seq<Rule>,
    i: int,
    nt: u64,
    visited: Set<u64>,
    fuel: nat,
    t: u64,
)
    requires
        first_scan(rules, i, nt, visited, fuel).contains(t),
    ensures
        rules_terms(rules).contains(t),
    decreases fuel, rules.len() - i,
{
    if i < 0 || i >= rules.len() {
        assert(false);
    } else {
        let rest = first_scan(rules, i + 1, nt, visited, fuel);
        if rules[i].lhs == nt && rules[i].rhs@.len() > 0 {
            match rules[i].rhs@[0] {
                TerminalOrNonTerminal::Terminal(t0) => {
                    if t == t0 {
                        lemma_rhs_terms_contains(rules[i].rhs@, 0);
                        lemma_rules_terms_contains(rules, i, t);
                    } else {
                        lemma_first_scan_sub_terms(rules, i + 1, nt, visited, fuel, t);
                    }
                },
                TerminalOrNonTerminal::NonTerminal(m) => {
                    if visited.contains(m) || fuel == 0 {
                        lemma_first_scan_sub_terms(rules, i + 1, nt, visited, fuel, t);
                    } else {
                        if rest.contains(t) {
                            lemma_first_scan_sub_terms(rules, i + 1, nt, visited, fuel, t);
                        } else {
                            lemma_first_scan_sub_terms(
                                rules,
                                0,
                                m,
                                visited.insert(m),
                                (fuel - 1) as nat,
                                t,
                            );
                        }
                    }
                },
            }
        } else {
            lemma_first_scan_sub_terms(rules, i + 1, nt, visited, fuel, t);
        }
    }
}

proof fn lemma_items_dots_contains(j: usize, d: int, las: Seq<u64>, it: LR1Item)
    requires
        it.index == j,
        it.dot_index <= d,
        las.contains(it.lookahead),
    ensures
        items_dots(j, d, las).contains(it),
    decreases d,
{
    if it.dot_index == d {
        let mapped = las.map_values(
            |la: u64| LR1Item { index: j, dot_index: d as usize, lookahead: la },
        );
        let k = choose|k: int| 0 <= k < las.len() && las[k] == it.lookahead;
        assert(mapped[k] == it);
        assert(items_dots(j, d, las)[items_dots(j, d - 1, las).len() + k] == it);
    } else {
        lemma_items_dots_contains(j, d - 1, las, it);
        let inner = items_dots(j, d - 1, las);
        let k = choose|k: int| 0 <= k < inner.len() && inner[k] == it;
        assert(items_dots(j, d, las)[k] == it);
    }
}

proof fn lemma_items_univ_contains(rules: Seq<Rule>, i: int, las: Seq<u64>, it: LR1Item)
    requires
        item_valid(rules, it),
        i <= it.index,
        0 <= i,
        las.contains(it.lookahead),
    ensures
        items_univ(rules, i, las).contains(it),
    decreases rules.len() - i,
{
    if i == it.index {
        lemma_items_dots_contains(it.index, rules[i].rhs@.len() as int, las, it);
        let inner = items_dots(i as usize, rules[i].rhs@.len() as int, las);
        let k = choose|k: int| 0 <= k < inner.len() && inner[k] == it;
        assert(items_univ(rules, i, las)[k] == it);
    } else {
        lemma_items_univ_contains(rules, i + 1, las, it);
        let inner = items_univ(rules, i + 1, las);
        let k = choose|k: int| 0 <= k < inner.len() && inner[k] == it;
        assert(items_univ(rules, i, las)[items_dots(
            i as usize,
            rules[i].rhs@.len() as int,
            las,
        ).len() + k] == it);
    }
}

/// The lookahead universe of a closure run: the kernel's lookaheads and
/// every terminal occurring in the grammar.
pub open spec fn la_univ(rules: Seq<Rule>, kernel: Seq<LR1Item>) -> Seq<u64> {
    items_las(kernel) + rules_terms(rules)
}

/// Every lookahead an item of the closure can carry lies in the universe.
proof fn lemma_lookaheads_in_univ(
    rules: Seq<Rule>,
    kernel: Seq<LR1Item>,
    it: LR1Item,
    la: u64,
)
    requires
        item_valid(rules, it),
        la_univ(rules, kernel).contains(it.lookahead),
        lookaheads_of(rules, it).contains(la),
    ensures
        la_univ(rules, kernel).contains(la),
{
    let rhs = rules[it.index as int].rhs@;
    if it.dot_index + 1 < rhs.len() {
        match rhs[it.dot_index + 1] {
            TerminalOrNonTerminal::Terminal(t) => {
                assert(la == t);
                lemma_rhs_terms_contains(rhs, it.dot_index + 1);
                lemma_rules_terms_contains(rules, it.index as int, t);
                let inner = rules_terms(rules);
                let k = choose|k: int| 0 <= k < inner.len() && inner[k] == la;
                assert(la_univ(rules, kernel)[items_las(kernel).len() + k] == la);
            },
            TerminalOrNonTerminal::NonTerminal(c) => {
                lemma_first_scan_sub_terms(
                    rules,
                    0,
                    c,
                    Set::empty().insert(c),
                    rules.len() as nat,
                    la,
                );
                let inner = rules_terms(rules);
                let k = choose|k: int| 0 <= k < inner.len() && inner[k] == la;
                assert(la_univ(rules, kernel)[items_las(kernel).len() + k] == la);
            },
        }
    } else {
        assert(la == it.lookahead);
    }
}

// ---------------------------------------------------------------------
// The closure computation.
// ---------------------------------------------------------------------

/// Copy a vector of terminal codes.
fn copy_terms(v: &Vec<u64>) -> (r: Vec<u64>)
    ensures
        r@ == v@,
{
    let mut r: Vec<u64> = Vec::new();
    let mut i: usize = 0;
    while i < v.len()
        invariant
            i <= v@.len(),
            r@ == v@.take(i as int),
        decreases v@.len() - i,
    {
        r.push(v[i]);
        proof {
            assert(r@ =~= v@.take(i + 1));
        }
        i += 1;
    }
    proof {
        assert(v@.take(v@.len() as int) =~= v@);
    }
    r
}

/// The closure as a value: the one canonical item vector the closure
/// contract admits.  [`lemma_closure_unique`] makes this well defined, so
/// a function returning it is a function of the rules and kernel alone.
pub open spec fn closure_val(rules: Seq<Rule>, kernel: Seq<LR1Item>) -> Seq<LR1Item> {
    choose|c: Seq<LR1Item>| item_sorted(c) && is_closure_of(rules, kernel, c.to_set())
}

/// The closure of `kernel` under `rules`, against precomputed FIRST sets.
pub fn lr1_closure_with(rules: &Vec<Rule>, kernel: &Vec<LR1Item>, firsts: &FirstSets) -> (r: Vec<
    LR1Item,
>)
    requires
        rules_wf(rules@),
        items_valid(rules@, kernel@),
        tail_nts_have_rules(rules@),
        firsts_wf(rules@, firsts.entries@),
    ensures
        item_sorted(r@),
        items_valid(rules@, r@),
        is_closure_of(rules@, kernel@, r@.to_set()),
        r@ == closure_val(rules@, kernel@),
{
    let ghost lau = la_univ(rules@, kernel@);
    let ghost univ = items_univ(rules@, 0, lau).to_set();
    proof {
        broadcast use vstd::seq_lib::seq_to_set_is_finite;

    }
    let mut res: Vec<LR1Item> = Vec::new();
    let mut queue: Vec<LR1Item> = Vec::new();

    // Load the kernel.
    let mut i: usize = 0;
    while i < kernel.len()
        invariant
            rules_wf(rules@),
            items_valid(rules@, kernel@),
            i <= kernel@.len(),
            lau == la_univ(rules@, kernel@),
            item_sorted(res@),
            items_valid(rules@, res@),
            forall|it: LR1Item| #[trigger]
                res@.contains(it) ==> lau.contains(it.lookahead),
            forall|it: LR1Item| #[trigger]
                res@.contains(it) ==> kernel@.contains(it),
            forall|k: int| 0 <= k < i ==> res@.contains(#[trigger] kernel@[k]),
            forall|it: LR1Item| #[trigger] res@.contains(it) ==> queue@.contains(it),
            forall|it: LR1Item| #[trigger] queue@.contains(it) ==> res@.contains(it),
        decreases kernel@.len() - i,
    {
        let it = kernel[i];
        if !sorted_contains(&res, &it) {
            let ghost q0 = queue@;
            sorted_insert(&mut res, it);
            queue.push(it);
            proof {
                assert(kernel@.contains(kernel@[i as int]));
                lemma_items_las_contains(kernel@, i as int);
                let q = choose|q: int|
                    0 <= q < items_las(kernel@).len() && items_las(kernel@)[q] == it.lookahead;
                assert(lau[q] == it.lookahead);
                assert(lau.contains(it.lookahead));
                assert(queue@ == q0.push(it));
                assert forall|x: LR1Item| #[trigger] queue@.contains(x) implies res@.contains(
                    x,
                ) by {
                    vstd::seq_lib::lemma_seq_contains_after_push(q0, it, x);
                }
                assert forall|x: LR1Item| #[trigger] res@.contains(x) implies queue@.contains(
                    x,
                ) by {
                    vstd::seq_lib::lemma_seq_contains_after_push(q0, it, x);
                }
            }
        }
        i += 1;
    }

    // Expand to the fixed point.
    while queue.len() > 0
        invariant
            rules_wf(rules@),
            items_valid(rules@, kernel@),
            tail_nts_have_rules(rules@),
            firsts_wf(rules@, firsts.entries@),
            lau == la_univ(rules@, kernel@),
            univ == items_univ(rules@, 0, lau).to_set(),
            univ.finite(),
            item_sorted(res@),
            items_valid(rules@, res@),
            forall|it: LR1Item| #[trigger] res@.contains(it) ==> lau.contains(it.lookahead),
            set_includes_seq(res@.to_set(), kernel@),
            forall|it: LR1Item| #[trigger] queue@.contains(it) ==> res@.contains(it),
            // every member is either pending or already expanded
            forall|it: LR1Item| #[trigger]
                res@.contains(it) ==> queue@.contains(it) || closure_step_ok(
                    rules@,
                    res@.to_set(),
                    it,
                ),
            // minimality: res stays inside every closed superset of the kernel
            forall|t: Set<LR1Item>|
                #[trigger] closed_under_expansion(rules@, t) && set_includes_seq(t, kernel@)
                    ==> set_within(res@.to_set(), t),
        decreases univ.len() - res@.len(), queue@.len(),
    {
        let ghost res_head = res@;
        let ghost q_head = queue@;
        let cur = queue.pop().unwrap();
        proof {
            assert(q_head.contains(q_head.last()));
            assert(res@.contains(cur));
            assert forall|x: LR1Item| #[trigger] queue@.contains(x) implies res@.contains(x) by {
                let k = choose|k: int| 0 <= k < queue@.len() && queue@[k] == x;
                assert(q_head[k] == x);
                assert(q_head.contains(x));
            }
            assert forall|x: LR1Item| #[trigger]
                res@.contains(x) implies queue@.contains(x) || x == cur || closure_step_ok(
                rules@,
                res@.to_set(),
                x,
            ) by {
                if q_head.contains(x) {
                    let k = choose|k: int| 0 <= k < q_head.len() && q_head[k] == x;
                    if k < q_head.len() - 1 {
                        assert(queue@[k] == x);
                        assert(queue@.contains(x));
                    } else {
                        assert(x == cur);
                    }
                }
            }
        }
        let next = cur.next_symbol(rules);
        match next {
            Some(TerminalOrNonTerminal::NonTerminal(b)) => {
                // The lookaheads `cur` passes on.
                let rule_len = rules[cur.index].rhs.len();
                let mut las: Vec<u64> = Vec::new();
                if cur.dot_index + 1 < rule_len {
                    let after = rules[cur.index].rhs[cur.dot_index + 1];
                    match after {
                        TerminalOrNonTerminal::Terminal(t) => {
                            las.push(t);
                            proof {
                                assert forall|la: u64|
                                    las@.contains(la) <==> lookaheads_of(rules@, cur).contains(
                                        la,
                                    ) by {
                                    if las@.contains(la) {
                                        let k = choose|k: int|
                                            0 <= k < las@.len() && las@[k] == la;
                                        assert(k == 0);
                                    }
                                    assert(las@[0] == t);
                                }
                            }
                        },
                        TerminalOrNonTerminal::NonTerminal(c) => {
                            let got = firsts.get(c);
                            match got {
                                Some(v) => {
                                    las = copy_terms(v);
                                    proof {
                                        let q = choose|q: int|
                                            0 <= q < firsts.entries@.len()
                                                && #[trigger] firsts.entries@[q].nt == c && v@
                                                == firsts.entries@[q].terminals@;
                                        assert(forall|la: u64|
                                            las@.contains(la) <==> first_of(rules@, c).contains(
                                                la,
                                            ));
                                    }
                                },
                                None => {
                                    proof {
                                        assert(rules@[cur.index as int].rhs@[cur.dot_index + 1]
                                            is NonTerminal);
                                        assert(firsts_has_key(firsts.entries@, c));
                                        assert(false);
                                    }
                                },
                            }
                        },
                    }
                } else {
                    las.push(cur.lookahead);
                    proof {
                        assert forall|la: u64|
                            las@.contains(la) <==> lookaheads_of(rules@, cur).contains(la) by {
                            if las@.contains(la) {
                                let k = choose|k: int| 0 <= k < las@.len() && las@[k] == la;
                                assert(k == 0);
                            }
                            assert(las@[0] == cur.lookahead);
                        }
                    }
                }
                proof {
                    assert(forall|la: u64|
                        las@.contains(la) <==> lookaheads_of(rules@, cur).contains(la));
                }

                // Spawn an item for every rule of `b` and every lookahead.
                let mut j: usize = 0;
                while j < rules.len()
                    invariant
                        rules_wf(rules@),
                        items_valid(rules@, kernel@),
                        tail_nts_have_rules(rules@),
                        lau == la_univ(rules@, kernel@),
                        univ == items_univ(rules@, 0, lau).to_set(),
                        univ.finite(),
                        j <= rules@.len(),
                        item_sorted(res@),
                        items_valid(rules@, res@),
                        forall|it: LR1Item| #[trigger]
                            res@.contains(it) ==> lau.contains(it.lookahead),
                        set_includes_seq(res@.to_set(), kernel@),
                        forall|it: LR1Item| #[trigger] queue@.contains(it) ==> res@.contains(it),
                        forall|it: LR1Item| #[trigger]
                            res@.contains(it) ==> queue@.contains(it) || it == cur
                                || closure_step_ok(rules@, res@.to_set(), it),
                        forall|t: Set<LR1Item>|
                            #[trigger] closed_under_expansion(rules@, t) && set_includes_seq(
                                t,
                                kernel@,
                            ) ==> set_within(res@.to_set(), t),
                        res@.contains(cur),
                        item_next_symbol(rules@, cur) == Some(
                            TerminalOrNonTerminal::NonTerminal(b),
                        ),
                        forall|la: u64|
                            las@.contains(la) <==> lookaheads_of(rules@, cur).contains(la),
                        // progress over the rules scanned so far
                        forall|j0: usize, la: u64|
                            j0 < j && rules@[j0 as int].lhs == b && las@.contains(la)
                                ==> #[trigger] res@.contains(
                                LR1Item { index: j0, dot_index: 0, lookahead: la },
                            ),
                        // work only grows, and only by queueing
                        res_head.len() <= res@.len(),
                        res@.len() == res_head.len() ==> res@ == res_head && queue@
                            == q_head.drop_last(),
                        q_head.drop_last().len() <= queue@.len(),
                    decreases rules@.len() - j,
                {
                    if rules[j].lhs == b {
                        let mut p: usize = 0;
                        while p < las.len()
                            invariant
                                rules_wf(rules@),
                                items_valid(rules@, kernel@),
                                lau == la_univ(rules@, kernel@),
                                univ == items_univ(rules@, 0, lau).to_set(),
                                univ.finite(),
                                j < rules@.len(),
                                rules@[j as int].lhs == b,
                                p <= las@.len(),
                                item_sorted(res@),
                                items_valid(rules@, res@),
                                forall|it: LR1Item| #[trigger]
                                    res@.contains(it) ==> lau.contains(it.lookahead),
                                set_includes_seq(res@.to_set(), kernel@),
                                forall|it: LR1Item| #[trigger]
                                    queue@.contains(it) ==> res@.contains(it),
                                forall|it: LR1Item| #[trigger]
                                    res@.contains(it) ==> queue@.contains(it) || it == cur
                                        || closure_step_ok(rules@, res@.to_set(), it),
                                forall|t: Set<LR1Item>|
                                    #[trigger] closed_under_expansion(rules@, t)
                                        && set_includes_seq(t, kernel@) ==> set_within(
                                        res@.to_set(),
                                        t,
                                    ),
                                res@.contains(cur),
                                item_next_symbol(rules@, cur) == Some(
                                    TerminalOrNonTerminal::NonTerminal(b),
                                ),
                                forall|la: u64|
                                    las@.contains(la) <==> lookaheads_of(rules@, cur).contains(
                                        la,
                                    ),
                                forall|j0: usize, la: u64|
                                    j0 < j && rules@[j0 as int].lhs == b && las@.contains(la)
                                        ==> #[trigger] res@.contains(
                                        LR1Item { index: j0, dot_index: 0, lookahead: la },
                                    ),
                                forall|p0: int|
                                    0 <= p0 < p ==> #[trigger] res@.contains(
                                        LR1Item {
                                            index: j,
                                            dot_index: 0,
                                            lookahead: las@[p0],
                                        },
                                    ),
                                res_head.len() <= res@.len(),
                                res@.len() == res_head.len() ==> res@ == res_head && queue@
                                    == q_head.drop_last(),
                                q_head.drop_last().len() <= queue@.len(),
                            decreases las@.len() - p,
                        {
                            let la = las[p];
                            let item = LR1Item { index: j, dot_index: 0, lookahead: la };
                            if !sorted_contains(&res, &item) {
                                let ghost res_before = res@;
                                let ghost q_before = queue@;
                                sorted_insert(&mut res, item);
                                queue.push(item);
                                proof {
                                    assert(las@.contains(la));
                                    assert(lookaheads_of(rules@, cur).contains(la));
                                    lemma_lookaheads_in_univ(rules@, kernel@, cur, la);
                                    assert forall|x: LR1Item| #[trigger]
                                        queue@.contains(x) implies res@.contains(x) by {
                                        vstd::seq_lib::lemma_seq_contains_after_push(
                                            q_before,
                                            item,
                                            x,
                                        );
                                    }
                                    assert forall|x: LR1Item| #[trigger]
                                        res@.contains(x) implies queue@.contains(x) || x == cur
                                        || closure_step_ok(rules@, res@.to_set(), x) by {
                                        vstd::seq_lib::lemma_seq_contains_after_push(
                                            q_before,
                                            item,
                                            x,
                                        );
                                        if x != item {
                                            assert(res_before.contains(x));
                                            if !q_before.contains(x) && x != cur {
                                                assert(closure_step_ok(
                                                    rules@,
                                                    res_before.to_set(),
                                                    x,
                                                ));
                                                assert(closure_step_ok(
                                                    rules@,
                                                    res@.to_set(),
                                                    x,
                                                )) by {
                                                    lemma_step_ok_monotone(
                                                        rules@,
                                                        res_before.to_set(),
                                                        res@.to_set(),
                                                        x,
                                                    );
                                                }
                                            }
                                        }
                                    }
                                    assert forall|t: Set<LR1Item>|
                                        #[trigger] closed_under_expansion(rules@, t)
                                            && set_includes_seq(t, kernel@) implies set_within(
                                        res@.to_set(),
                                        t,
                                    ) by {
                                        assert(set_within(res_before.to_set(), t));
                                        assert(res_before.to_set().contains(cur));
                                        assert(t.contains(cur));
                                        assert(closure_step_ok(rules@, t, cur));
                                        assert(t.contains(
                                            LR1Item { index: j, dot_index: 0, lookahead: la },
                                        ));
                                        assert forall|x: LR1Item| #[trigger]
                                            res@.to_set().contains(x) implies t.contains(x) by {
                                            if x != item {
                                                assert(res_before.contains(x));
                                                assert(res_before.to_set().contains(x));
                                            }
                                        }
                                    }
                                }
                            }
                            p += 1;
                        }
                        proof {
                            assert forall|j0: usize, la: u64|
                                j0 < j + 1 && rules@[j0 as int].lhs == b && las@.contains(la)
                                    implies #[trigger] res@.contains(
                                LR1Item { index: j0, dot_index: 0, lookahead: la },
                            ) by {
                                if j0 == j {
                                    let k = choose|k: int|
                                        0 <= k < las@.len() && las@[k] == la;
                                    assert(res@.contains(
                                        LR1Item { index: j, dot_index: 0, lookahead: las@[k] },
                                    ));
                                }
                            }
                        }
                    }
                    j += 1;
                }
                proof {
                    // `cur` is now fully expanded.
                    assert(closure_step_ok(rules@, res@.to_set(), cur)) by {
                        assert forall|j0: usize, la: u64|
                            j0 < rules@.len() && rules@[j0 as int].lhs == b && lookaheads_of(
                                rules@,
                                cur,
                            ).contains(la) implies #[trigger] res@.to_set().contains(
                            LR1Item { index: j0, dot_index: 0, lookahead: la },
                        ) by {
                            assert(las@.contains(la));
                            assert(res@.contains(
                                LR1Item { index: j0, dot_index: 0, lookahead: la },
                            ));
                        }
                    }
                    assert forall|it: LR1Item| #[trigger]
                        res@.contains(it) implies queue@.contains(it) || closure_step_ok(
                        rules@,
                        res@.to_set(),
                        it,
                    ) by {
                        if it == cur {
                            assert(closure_step_ok(rules@, res@.to_set(), cur));
                        }
                    }
                    lemma_res_bounded(rules@, kernel@, res@, lau, univ);
                }
            },
            _ => {
                proof {
                    assert(closure_step_ok(rules@, res@.to_set(), cur));
                    lemma_res_bounded(rules@, kernel@, res@, lau, univ);
                }
            },
        }
        proof {
            // Either the item set grew, or the queue shrank.
            if res@.len() == res_head.len() {
                assert(queue@.len() < q_head.len());
            }
        }
    }
    proof {
        assert(closed_under_expansion(rules@, res@.to_set())) by {
            assert forall|it: LR1Item| #[trigger]
                res@.to_set().contains(it) implies closure_step_ok(
                rules@,
                res@.to_set(),
                it,
            ) by {
                assert(!queue@.contains(it));
            }
        }
        // the result is the one canonical closure
        assert(item_sorted(res@) && is_closure_of(rules@, kernel@, res@.to_set()));
        assert(exists|c: Seq<LR1Item>|
            item_sorted(c) && #[trigger] is_closure_of(rules@, kernel@, c.to_set()));
        let c = closure_val(rules@, kernel@);
        assert(item_sorted(c) && is_closure_of(rules@, kernel@, c.to_set()));
        lemma_closure_unique(rules@, kernel@, res@, c);
    }
    res
}

/// Expansion obligations only grow easier as the set grows.
pub proof fn lemma_step_ok_monotone(rules: Seq<Rule>, s1: Set<LR1Item>, s2: Set<LR1Item>, it: LR1Item)
    requires
        closure_step_ok(rules, s1, it),
        forall|x: LR1Item| s1.contains(x) ==> s2.contains(x),
    ensures
        closure_step_ok(rules, s2, it),
{
    match item_next_symbol(rules, it) {
        Some(TerminalOrNonTerminal::NonTerminal(b)) => {
            assert forall|j: usize, la: u64|
                j < rules.len() && rules[j as int].lhs == b && lookaheads_of(rules, it).contains(
                    la,
                ) implies #[trigger] s2.contains(
                LR1Item { index: j, dot_index: 0, lookahead: la },
            ) by {
                assert(s1.contains(LR1Item { index: j, dot_index: 0, lookahead: la }));
            }
        },
        _ => {},
    }
}

/// The working set stays inside the finite universe, so the fixed point
/// cannot grow forever.
proof fn lemma_res_bounded(
    rules: Seq<Rule>,
    kernel: Seq<LR1Item>,
    res: Seq<LR1Item>,
    lau: Seq<u64>,
    univ: Set<LR1Item>,
)
    requires
        item_sorted(res),
        items_valid(rules, res),
        forall|it: LR1Item| #[trigger] res.contains(it) ==> lau.contains(it.lookahead),
        lau == la_univ(rules, kernel),
        univ == items_univ(rules, 0, lau).to_set(),
        univ.finite(),
    ensures
        res.len() <= univ.len(),
{
    assert forall|it: LR1Item| res.contains(it) implies univ.contains(it) by {
        lemma_items_univ_contains(rules, 0, lau, it);
    }
    lemma_sorted_len_le_card(res, univ);
}

/// The closure of `kernel` under `rules`; FIRST sets are taken from
/// `precomputed_firsts` or computed on the spot.
pub fn lr1_closure(
    rules: &Vec<Rule>,
    kernel: &Vec<LR1Item>,
    precomputed_firsts: Option<&FirstSets>,
) -> (r: Vec<LR1Item>)
    requires
        rules_wf(rules@),
        items_valid(rules@, kernel@),
        tail_nts_have_rules(rules@),
        match precomputed_firsts {
            Some(f) => firsts_wf(rules@, f.entries@),
            None => true,
        },
    ensures
        item_sorted(r@),
        items_valid(rules@, r@),
        is_closure_of(rules@, kernel@, r@.to_set()),
        r@ == closure_val(rules@, kernel@),
{
    match precomputed_firsts {
        Some(f) => lr1_closure_with(rules, kernel, f),
        None => {
            let f = compute_firsts(rules);
            lr1_closure_with(rules, kernel, &f)
        },
    }
}

/// The closure is uniquely determined: two canonical closures of the same
/// kernel are equal, item for item.
pub proof fn lemma_closure_unique(
    rules: Seq<Rule>,
    kernel: Seq<LR1Item>,
    c1: Seq<LR1Item>,
    c2: Seq<LR1Item>,
)
    requires
        item_sorted(c1),
        item_sorted(c2),
        is_closure_of(rules, kernel, c1.to_set()),
        is_closure_of(rules, kernel, c2.to_set()),
    ensures
        c1 == c2,
{
    assert(set_within(c1.to_set(), c2.to_set()));
    assert(set_within(c2.to_set(), c1.to_set()));
    assert forall|x: LR1Item| c1.contains(x) <==> c2.contains(x) by {
        assert(c1.to_set().contains(x) <==> c1.contains(x));
        assert(c2.to_set().contains(x) <==> c2.contains(x));
        if c1.to_set().contains(x) {
            assert(c2.to_set().contains(x));
        }
        if c2.to_set().contains(x) {
            assert(c1.to_set().contains(x));
        }
    }
    crate::parser_utils::ordered::lemma_sorted_unique(c1, c2);
}

/// Closure is a fixed point: closing an already-closed set again gives the
/// same set.  `c1` is the closure of some kernel; `c2`, the closure of
/// `c1`, equals `c1`.
pub proof fn lemma_closure_idempotent(
    rules: Seq<Rule>,
    kernel: Seq<LR1Item>,
    c1: Seq<LR1Item>,
    c2: Seq<LR1Item>,
)
    requires
        item_sorted(c1),
        item_sorted(c2),
        is_closure_of(rules, kernel, c1.to_set()),
        is_closure_of(rules, c1, c2.to_set()),
    ensures
        c2 == c1,
{
    // `c1` is itself a closed superset of `c1`, so `c2` fits inside it.
    assert(set_includes_seq(c1.to_set(), c1));
    assert(set_within(c2.to_set(), c1.to_set()));
    // And `c2` includes its kernel `c1`.
    assert forall|x: LR1Item| #[trigger] c1.to_set().contains(x) implies c2.to_set().contains(
        x,
    ) by {
        assert(c1.contains(x));
        assert(c2.to_set().contains(x));
    }
    assert forall|x: LR1Item| c2.contains(x) <==> c1.contains(x) by {
        if c2.contains(x) {
            assert(c2.to_set().contains(x));
            assert(c1.to_set().contains(x));
        }
        if c1.contains(x) {
            assert(c1.to_set().contains(x));
            assert(c2.to_set().contains(x));
        }
    }
    crate::parser_utils::ordered::lemma_sorted_unique(c2, c1);
}

/// Decide [`tail_nts_have_rules`], so that callers can test the closure
/// engine's grammar precondition at run time.
pub fn check_tail_nts_have_rules(rules: &Vec<Rule>) -> (r: bool)
    ensures
        r == tail_nts_have_rules(rules@),
{
    let mut i: usize = 0;
    while i < rules.len()
        invariant
            i <= rules@.len(),
            forall|i2: int, p2: int|
                0 <= i2 < i && 1 <= p2 < rules@[i2].rhs@.len() && (#[trigger] rules@[i2].rhs@[
                    p2
                ]) is NonTerminal ==> exists|j: int|
                    0 <= j < rules@.len() && (#[trigger] rules@[j].lhs) == rules@[i2].rhs@[
                        p2
                    ]->NonTerminal_0,
        decreases rules@.len() - i,
    {
        let mut p: usize = 1;
        while p < rules[i].rhs.len()
            invariant
                i < rules@.len(),
                1 <= p,
                p <= rules@[i as int].rhs@.len() || rules@[i as int].rhs@.len() < 1,
                forall|p2: int|
                    1 <= p2 < p && p2 < rules@[i as int].rhs@.len() && (
                    #[trigger] rules@[i as int].rhs@[p2]) is NonTerminal ==> exists|j: int|
                        0 <= j < rules@.len() && (#[trigger] rules@[j].lhs) == rules@[
                            i as int
                        ].rhs@[p2]->NonTerminal_0,
            decreases rules@[i as int].rhs@.len() - p,
        {
            let sym = rules[i].rhs[p];
            match sym {
                TerminalOrNonTerminal::NonTerminal(m) => {
                    if !crate::parser_types::rule::has_lhs_rule(rules, m) {
                        proof {
                            assert(rules@[i as int].rhs@[p as int] is NonTerminal);
                            assert(!tail_nts_have_rules(rules@));
                        }
                        return false;
                    }
                },
                TerminalOrNonTerminal::Terminal(_) => {},
            }
            p += 1;
        }
        i += 1;
    }
    true
}

} // verus!

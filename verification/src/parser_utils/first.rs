//! FIRST sets: for a non-terminal, the set of terminals that can begin a
//! string it derives.  The definition inspects only the first right-hand
//! symbol of each alternative (there are no epsilon productions), recursing
//! into a leading non-terminal unless it was already visited along the
//! current chain; a fuel bound caps the chain depth at the rule count, which
//! the visited guard can never exceed, so the bound changes no result.

use vstd::prelude::*;
use crate::parser_types::rule::{Rule, rules_wf};
use crate::parser_types::terminal_or_nonterminal::TerminalOrNonTerminal;
use crate::parser_utils::ordered::{sorted_insert, sorted_union, term_sorted, TotalOrdered};

verus! {

/// The terminals contributed to FIRST(`nt`) by the rules from index `i` on:
/// a leading terminal is taken directly; a leading non-terminal not yet in
/// `visited` contributes its own FIRST set, computed with one unit of fuel
/// less and with itself added to `visited`.
pub open spec fn first_scan(
    rules: Seq<Rule>,
    i: int,
    nt: u64,
    visited: Set<u64>,
    fuel: nat,
) -> Set<u64>
    decreases fuel, rules.len() - i,
{
    if i < 0 || i >= rules.len() {
        Set::empty()
    } else {
        let rest = first_scan(rules, i + 1, nt, visited, fuel);
        if rules[i].lhs == nt && rules[i].rhs@.len() > 0 {
            match rules[i].rhs@[0] {
                TerminalOrNonTerminal::Terminal(t) => rest.insert(t),
                TerminalOrNonTerminal::NonTerminal(m) => if visited.contains(m) || fuel == 0 {
                    rest
                } else {
                    rest.union(first_scan(rules, 0, m, visited.insert(m), (fuel - 1) as nat))
                },
            }
        } else {
            rest
        }
    }
}

/// FIRST of a non-terminal over the whole rule sequence.
pub open spec fn first_of(rules: Seq<Rule>, nt: u64) -> Set<u64> {
    first_scan(rules, 0, nt, Set::empty().insert(nt), rules.len() as nat)
}

/// Copy `visited` and append `m`.
fn push_visited(visited: &Vec<u64>, m: u64) -> (r: Vec<u64>)
    ensures
        r@ == visited@.push(m),
{
    let mut r: Vec<u64> = Vec::new();
    let mut i: usize = 0;
    while i < visited.len()
        invariant
            i <= visited@.len(),
            r@ == visited@.take(i as int),
        decreases visited@.len() - i,
    {
        r.push(visited[i]);
        proof {
            assert(r@ =~= visited@.take(i + 1));
        }
        i += 1;
    }
    proof {
        assert(visited@.take(visited@.len() as int) =~= visited@);
    }
    r.push(m);
    r
}

/// Membership test on an (unsorted) visited chain.
fn visited_contains(v: &Vec<u64>, x: u64) -> (r: bool)
    ensures
        r == v@.contains(x),
{
    let mut i: usize = 0;
    while i < v.len()
        invariant
            i <= v@.len(),
            forall|k: int| 0 <= k < i ==> v@[k] != x,
        decreases v@.len() - i,
    {
        if v[i] == x {
            return true;
        }
        i += 1;
    }
    false
}

fn first_rec(rules: &Vec<Rule>, nt: u64, visited: &Vec<u64>, fuel: usize) -> (r: Vec<u64>)
    requires
        rules_wf(rules@),
    ensures
        term_sorted(r@),
        forall|t: u64|
            #[trigger] r@.contains(t) <==> first_scan(
                rules@,
                0,
                nt,
                visited@.to_set(),
                fuel as nat,
            ).contains(t),
    decreases fuel,
{
    let ghost vs = visited@.to_set();
    let ghost f = fuel as nat;
    let mut r: Vec<u64> = Vec::new();
    let mut i: usize = 0;
    while i < rules.len()
        invariant
            rules_wf(rules@),
            term_sorted(r@),
            i <= rules@.len(),
            vs == visited@.to_set(),
            f == fuel as nat,
            forall|t: u64|
                (r@.contains(t) || first_scan(rules@, i as int, nt, vs, f).contains(t))
                    <==> #[trigger] first_scan(rules@, 0, nt, vs, f).contains(t),
        decreases rules@.len() - i,
    {
        let ghost i0 = i as int;
        let ghost r0 = r@;
        let ghost rest = first_scan(rules@, i0 + 1, nt, vs, f);
        let ghost added: Set<u64> = Set::empty();
        proof {
            assert(rule_wf_at(rules@, i0));
        }
        let rule = &rules[i];
        if rule.lhs == nt {
            let s0 = rule.rhs[0];
            match s0 {
                TerminalOrNonTerminal::Terminal(t) => {
                    sorted_insert(&mut r, t);
                    proof {
                        added = Set::empty().insert(t);
                        assert(first_scan(rules@, i0, nt, vs, f) == rest.insert(t));
                        assert(rest.insert(t) =~= rest.union(added));
                        assert(forall|y: u64|
                            r@.contains(y) <==> r0.contains(y) || added.contains(y));
                    }
                },
                TerminalOrNonTerminal::NonTerminal(m) => {
                    if fuel > 0 && !visited_contains(visited, m) {
                        let ext = push_visited(visited, m);
                        proof {
                            assert forall|y: u64|
                                ext@.contains(y) <==> (visited@.contains(y) || y == m) by {
                                vstd::seq_lib::lemma_seq_contains_after_push(visited@, m, y);
                            }
                            assert(ext@.to_set() =~= vs.insert(m));
                        }
                        let sub = first_rec(rules, m, &ext, fuel - 1);
                        sorted_union(&mut r, &sub);
                        proof {
                            added = first_scan(rules@, 0, m, vs.insert(m), (f - 1) as nat);
                            assert(first_scan(rules@, i0, nt, vs, f) == rest.union(added));
                            assert forall|y: u64|
                                r@.contains(y) <==> r0.contains(y) || added.contains(y) by {
                                assert(r@.contains(y) <==> r0.contains(y) || sub@.contains(y));
                                assert(sub@.contains(y) <==> added.contains(y));
                            }
                        }
                    } else {
                        proof {
                            assert(first_scan(rules@, i0, nt, vs, f) == rest);
                            assert(rest =~= rest.union(added));
                            assert(forall|y: u64|
                                r@.contains(y) <==> r0.contains(y) || added.contains(y));
                        }
                    }
                },
            }
        } else {
            proof {
                assert(first_scan(rules@, i0, nt, vs, f) == rest);
                assert(rest =~= rest.union(added));
                assert(forall|y: u64| r@.contains(y) <==> r0.contains(y) || added.contains(y));
            }
        }
        proof {
            assert(first_scan(rules@, i0, nt, vs, f) == rest.union(added));
        }
        i += 1;
        proof {
            assert(first_scan(rules@, i as int, nt, vs, f) == rest);
            assert forall|t: u64|
                (r@.contains(t) || first_scan(rules@, i as int, nt, vs, f).contains(t))
                    <==> #[trigger] first_scan(rules@, 0, nt, vs, f).contains(t) by {
                assert(r@.contains(t) <==> r0.contains(t) || added.contains(t));
                assert((r0.contains(t) || first_scan(rules@, i0, nt, vs, f).contains(t))
                    <==> first_scan(rules@, 0, nt, vs, f).contains(t));
                assert(first_scan(rules@, i0, nt, vs, f).contains(t) <==> (rest.contains(t)
                    || added.contains(t)));
            }
        }
    }
    proof {
        assert(first_scan(rules@, i as int, nt, vs, f) == Set::<u64>::empty());
    }
    r
}

/// Helper naming of per-index rule well-formedness, to guide instantiation.
pub open spec fn rule_wf_at(rules: Seq<Rule>, i: int) -> bool {
    0 <= i < rules.len() ==> rules[i].rhs@.len() >= 1
}

/// FIRST(`nt`): the set of terminals that can begin a derivation from `nt`,
/// in canonical sorted form.
pub fn first(rules: &Vec<Rule>, nt: u64) -> (r: Vec<u64>)
    requires
        rules_wf(rules@),
    ensures
        term_sorted(r@),
        forall|t: u64| #[trigger] r@.contains(t) <==> first_of(rules@, nt).contains(t),
{
    let mut visited: Vec<u64> = Vec::new();
    visited.push(nt);
    proof {
        assert forall|y: u64| visited@.contains(y) <==> y == nt by {
            if visited@.contains(y) {
                let k = choose|k: int| 0 <= k < visited@.len() && visited@[k] == y;
                assert(k == 0);
            }
            assert(visited@[0] == nt);
        }
        assert(visited@.to_set() =~= Set::empty().insert(nt));
    }
    first_rec(rules, nt, &visited, rules.len())
}

/// Two canonical FIRST vectors for the same non-terminal are identical:
/// the computation has no order dependence.
pub proof fn lemma_first_deterministic(rules: Seq<Rule>, nt: u64, r1: Seq<u64>, r2: Seq<u64>)
    requires
        term_sorted(r1),
        term_sorted(r2),
        forall|t: u64| #[trigger] r1.contains(t) <==> first_of(rules, nt).contains(t),
        forall|t: u64| #[trigger] r2.contains(t) <==> first_of(rules, nt).contains(t),
    ensures
        r1 == r2,
{
    crate::parser_utils::ordered::lemma_sorted_unique(r1, r2);
}

/// One computed FIRST set: a non-terminal and its terminals.
pub struct FirstEntry {
    pub nt: u64,
    pub terminals: Vec<u64>,
}

/// All FIRST sets of a grammar, keyed by non-terminal in increasing order.
pub struct FirstSets {
    pub entries: Vec<FirstEntry>,
}

/// The map has an entry for key `k`.
pub open spec fn firsts_has_key(f: Seq<FirstEntry>, k: u64) -> bool {
    exists|i: int| 0 <= i < f.len() && f[i].nt == k
}

/// The map is sorted by key, has an entry exactly for every left-hand
/// non-terminal of `rules`, and each entry holds exactly FIRST of its key.
pub open spec fn firsts_wf(rules: Seq<Rule>, f: Seq<FirstEntry>) -> bool {
    &&& forall|i: int, j: int| 0 <= i < j < f.len() ==> f[i].nt < f[j].nt
    &&& forall|k: u64|
        firsts_has_key(f, k) <==> exists|i: int| 0 <= i < rules.len() && #[trigger] rules[i].lhs
            == k
    &&& forall|i: int|
        0 <= i < f.len() ==> term_sorted(#[trigger] f[i].terminals@) && (forall|t: u64|
            f[i].terminals@.contains(t) <==> first_of(rules, f[i].nt).contains(t))
}

/// Compute the FIRST set of every non-terminal that appears as some rule's
/// left-hand side.
pub fn compute_firsts(rules: &Vec<Rule>) -> (r: FirstSets)
    requires
        rules_wf(rules@),
    ensures
        firsts_wf(rules@, r.entries@),
{
    let mut keys: Vec<u64> = Vec::new();
    let mut i: usize = 0;
    while i < rules.len()
        invariant
            term_sorted(keys@),
            i <= rules@.len(),
            forall|k: u64|
                keys@.contains(k) <==> exists|j: int| 0 <= j < i && #[trigger] rules@[j].lhs == k,
        decreases rules@.len() - i,
    {
        sorted_insert(&mut keys, rules[i].lhs);
        proof {
            assert forall|k: u64|
                keys@.contains(k) <==> exists|j: int| 0 <= j < i + 1 && #[trigger] rules@[j].lhs
                    == k by {
                if keys@.contains(k) {
                    if k == rules@[i as int].lhs {
                        assert(rules@[i as int].lhs == k);
                    }
                }
            }
        }
        i += 1;
    }
    let mut entries: Vec<FirstEntry> = Vec::new();
    let mut p: usize = 0;
    while p < keys.len()
        invariant
            rules_wf(rules@),
            term_sorted(keys@),
            forall|k: u64|
                keys@.contains(k) <==> exists|j: int| 0 <= j < rules@.len()
                    && #[trigger] rules@[j].lhs == k,
            p <= keys@.len(),
            entries@.len() == p,
            forall|q: int| 0 <= q < p ==> #[trigger] entries@[q].nt == keys@[q],
            forall|q: int|
                0 <= q < p ==> term_sorted(#[trigger] entries@[q].terminals@) && (forall|t: u64|
                    entries@[q].terminals@.contains(t) <==> first_of(
                        rules@,
                        entries@[q].nt,
                    ).contains(t)),
        decreases keys@.len() - p,
    {
        let k = keys[p];
        let terminals = first(rules, k);
        entries.push(FirstEntry { nt: k, terminals });
        p += 1;
    }
    proof {
        assert forall|i: int, j: int| 0 <= i < j < entries@.len() implies entries@[i].nt
            < entries@[j].nt by {
            assert(keys@[i].lt_spec(keys@[j]));
        }
        assert forall|k: u64|
            firsts_has_key(entries@, k) <==> exists|i: int| 0 <= i < rules@.len()
                && #[trigger] rules@[i].lhs == k by {
            if firsts_has_key(entries@, k) {
                let q = choose|q: int| 0 <= q < entries@.len() && entries@[q].nt == k;
                assert(keys@[q] == k);
                assert(keys@.contains(k));
            }
            if exists|i: int| 0 <= i < rules@.len() && #[trigger] rules@[i].lhs == k {
                assert(keys@.contains(k));
                let q = choose|q: int| 0 <= q < keys@.len() && keys@[q] == k;
                assert(entries@[q].nt == k);
            }
        }
    }
    FirstSets { entries }
}

impl FirstSets {
    /// Look up the FIRST set recorded for `k`.
    pub fn get(&self, k: u64) -> (r: Option<&Vec<u64>>)
        ensures
            match r {
                Some(v) => exists|i: int|
                    0 <= i < self.entries@.len() && #[trigger] self.entries@[i].nt == k
                        && v@ == self.entries@[i].terminals@,
                None => !firsts_has_key(self.entries@, k),
            },
    {
        let mut i: usize = 0;
        while i < self.entries.len()
            invariant
                i <= self.entries@.len(),
                forall|j: int| 0 <= j < i ==> #[trigger] self.entries@[j].nt != k,
            decreases self.entries@.len() - i,
        {
            if self.entries[i].nt == k {
                return Some(&self.entries[i].terminals);
            }
            i += 1;
        }
        None
    }
}

/// When every alternative of `nt` starts with a terminal, FIRST(`nt`) is
/// exactly the set of those leading terminals, gathered from the rules at
/// index `i` and beyond.
proof fn lemma_first_scan_leading(rules: Seq<Rule>, i: int, nt: u64, visited: Set<u64>, fuel: nat)
    requires
        rules_wf(rules),
        0 <= i,
        forall|j: int|
            0 <= j < rules.len() && (#[trigger] rules[j]).lhs == nt ==> rules[j].rhs@[0]
                is Terminal,
    ensures
        forall|t: u64|
            first_scan(rules, i, nt, visited, fuel).contains(t) <==> exists|j: int|
                i <= j < rules.len() && (#[trigger] rules[j]).lhs == nt && rules[j].rhs@[0]
                    == TerminalOrNonTerminal::Terminal(t),
    decreases rules.len() - i,
{
    if i >= rules.len() {
        assert forall|t: u64|
            first_scan(rules, i, nt, visited, fuel).contains(t) <==> exists|j: int|
                i <= j < rules.len() && (#[trigger] rules[j]).lhs == nt && rules[j].rhs@[0]
                    == TerminalOrNonTerminal::Terminal(t) by {
            assert(!first_scan(rules, i, nt, visited, fuel).contains(t));
        }
    } else {
        lemma_first_scan_leading(rules, i + 1, nt, visited, fuel);
        let rest = first_scan(rules, i + 1, nt, visited, fuel);
        assert forall|t: u64|
            first_scan(rules, i, nt, visited, fuel).contains(t) <==> exists|j: int|
                i <= j < rules.len() && (#[trigger] rules[j]).lhs == nt && rules[j].rhs@[0]
                    == TerminalOrNonTerminal::Terminal(t) by {
            if rules[i].lhs == nt {
                assert(rules[i].rhs@[0] is Terminal);
                let t0 = rules[i].rhs@[0]->Terminal_0;
                assert(first_scan(rules, i, nt, visited, fuel) == rest.insert(t0));
                if first_scan(rules, i, nt, visited, fuel).contains(t) {
                    if t == t0 {
                        assert(rules[i].lhs == nt && rules[i].rhs@[0]
                            == TerminalOrNonTerminal::Terminal(t));
                    } else {
                        assert(rest.contains(t));
                    }
                }
                if exists|j: int|
                    i <= j < rules.len() && (#[trigger] rules[j]).lhs == nt && rules[j].rhs@[0]
                        == TerminalOrNonTerminal::Terminal(t) {
                    let j = choose|j: int|
                        i <= j < rules.len() && (#[trigger] rules[j]).lhs == nt
                            && rules[j].rhs@[0] == TerminalOrNonTerminal::Terminal(t);
                    if j == i {
                        assert(t == t0);
                    } else {
                        assert(rest.contains(t));
                    }
                }
            } else {
                assert(first_scan(rules, i, nt, visited, fuel) == rest);
                if exists|j: int|
                    i <= j < rules.len() && (#[trigger] rules[j]).lhs == nt && rules[j].rhs@[0]
                        == TerminalOrNonTerminal::Terminal(t) {
                    let j = choose|j: int|
                        i <= j < rules.len() && (#[trigger] rules[j]).lhs == nt
                            && rules[j].rhs@[0] == TerminalOrNonTerminal::Terminal(t);
                    assert(j != i);
                }
            }
        }
    }
}

/// FIRST of a non-terminal whose every production starts with a terminal is
/// exactly the set of those leading terminals.
pub proof fn lemma_first_of_leading_terminals(rules: Seq<Rule>, nt: u64)
    requires
        rules_wf(rules),
        forall|j: int|
            0 <= j < rules.len() && (#[trigger] rules[j]).lhs == nt ==> rules[j].rhs@[0]
                is Terminal,
    ensures
        forall|t: u64|
            first_of(rules, nt).contains(t) <==> exists|j: int|
                0 <= j < rules.len() && (#[trigger] rules[j]).lhs == nt && rules[j].rhs@[0]
                    == TerminalOrNonTerminal::Terminal(t),
{
    lemma_first_scan_leading(rules, 0, nt, Set::empty().insert(nt), rules.len() as nat);
}


} // verus!

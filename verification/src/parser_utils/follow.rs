//! FOLLOW sets: for each non-terminal, the terminals that can appear right
//! after it in some derivation.  Computed by iterating the constraint
//! rules to a fixed point: end-of-input follows the start symbol; whatever
//! can begin `beta` follows `B` in `A -> alpha B beta`; and everything that
//! follows `A` follows `B` in `A -> alpha B`.  A full pass that changes
//! nothing witnesses that every constraint holds.

use vstd::prelude::*;
use crate::{EOF_TERMINAL, START_NONTERMINAL};
use crate::parser_types::rule::{rules_wf, Rule};
use crate::parser_types::terminal_or_nonterminal::TerminalOrNonTerminal;
use crate::parser_utils::first::{compute_firsts, first_of, firsts_wf, FirstEntry, FirstSets};
use crate::parser_utils::ordered::{
    lemma_sorted_unique, sorted_by, sorted_insert, sorted_union, term_sorted, TotalOrdered,
};

verus! {

/// One computed FOLLOW set: a non-terminal and its terminals.
pub struct FollowEntry {
    pub nt: u64,
    pub terminals: Vec<u64>,
}

/// All FOLLOW sets of a grammar, keyed by non-terminal in increasing order.
pub struct FollowSets {
    pub entries: Vec<FollowEntry>,
}

/// Every non-terminal occurring in any right-hand side has a rule of its
/// own, so each has a FOLLOW entry and a FIRST entry.
pub open spec fn all_rhs_nts_have_rules(rules: Seq<Rule>) -> bool {
    forall|i: int, p: int|
        0 <= i < rules.len() && 0 <= p < rules[i].rhs@.len() && (#[trigger] rules[i].rhs@[p])
            is NonTerminal ==> exists|j: int|
            0 <= j < rules.len() && (#[trigger] rules[j].lhs) == rules[i].rhs@[p]->NonTerminal_0
}

pub open spec fn follow_has_key(f: Seq<FollowEntry>, k: u64) -> bool {
    exists|q: int| 0 <= q < f.len() && (#[trigger] f[q]).nt == k
}

/// Terminal `t` is recorded in the FOLLOW set of `k`.
pub open spec fn follow_val_contains(f: Seq<FollowEntry>, k: u64, t: u64) -> bool {
    exists|q: int| 0 <= q < f.len() && (#[trigger] f[q]).nt == k && f[q].terminals@.contains(t)
}

/// The constraint contributed by the non-terminal at position `p` of rule
/// `i`.
pub open spec fn follow_constraint_ok(rules: Seq<Rule>, f: Seq<FollowEntry>, i: int, p: int) -> bool {
    let b = rules[i].rhs@[p]->NonTerminal_0;
    if p == rules[i].rhs@.len() - 1 {
        forall|t: u64|
            follow_val_contains(f, rules[i].lhs, t) ==> follow_val_contains(f, b, t)
    } else {
        match rules[i].rhs@[p + 1] {
            TerminalOrNonTerminal::Terminal(t) => follow_val_contains(f, b, t),
            TerminalOrNonTerminal::NonTerminal(c) => forall|t: u64|
                first_of(rules, c).contains(t) ==> follow_val_contains(f, b, t),
        }
    }
}

/// Every FOLLOW constraint of the grammar holds.
pub open spec fn follows_closed(rules: Seq<Rule>, f: Seq<FollowEntry>) -> bool {
    forall|i: int, p: int|
        0 <= i < rules.len() && 0 <= p < rules[i].rhs@.len() && (#[trigger] rules[i].rhs@[p])
            is NonTerminal ==> follow_constraint_ok(rules, f, i, p)
}

/// Structural shape of the FOLLOW map: keys strictly sorted, one entry for
/// every left-hand non-terminal, values in canonical form.
pub open spec fn follows_wf(rules: Seq<Rule>, f: Seq<FollowEntry>) -> bool {
    &&& forall|p: int, q: int| 0 <= p < q < f.len() ==> (#[trigger] f[p]).nt < (#[trigger] f[q]).nt
    &&& forall|k: u64|
        follow_has_key(f, k) <==> exists|j: int| 0 <= j < rules.len() && (#[trigger] rules[j].lhs)
            == k
    &&& forall|q: int| 0 <= q < f.len() ==> term_sorted((#[trigger] f[q]).terminals@)
}

/// A candidate FOLLOW assignment `g` satisfies the constraint contributed
/// by the non-terminal at position `p` of rule `i`.
pub open spec fn model_constraint_ok(
    rules: Seq<Rule>,
    g: spec_fn(u64) -> Set<u64>,
    i: int,
    p: int,
) -> bool {
    let b = rules[i].rhs@[p]->NonTerminal_0;
    if p == rules[i].rhs@.len() - 1 {
        forall|t: u64| #[trigger] g(rules[i].lhs).contains(t) ==> g(b).contains(t)
    } else {
        match rules[i].rhs@[p + 1] {
            TerminalOrNonTerminal::Terminal(t) => g(b).contains(t),
            TerminalOrNonTerminal::NonTerminal(c) => forall|t: u64|
                first_of(rules, c).contains(t) ==> #[trigger] g(b).contains(t),
        }
    }
}

/// `g` is a FOLLOW assignment: end-of-input follows the start symbol and
/// every constraint holds.
pub open spec fn follows_models(rules: Seq<Rule>, g: spec_fn(u64) -> Set<u64>) -> bool {
    &&& g(START_NONTERMINAL).contains(EOF_TERMINAL)
    &&& forall|i: int, p: int|
        0 <= i < rules.len() && 0 <= p < rules[i].rhs@.len() && (#[trigger] rules[i].rhs@[p])
            is NonTerminal ==> model_constraint_ok(rules, g, i, p)
}

/// The computed map is the least one: it fits inside every assignment that
/// satisfies the constraints.
pub open spec fn follows_minimal(rules: Seq<Rule>, f: Seq<FollowEntry>) -> bool {
    forall|g: spec_fn(u64) -> Set<u64>|
        #[trigger] follows_models(rules, g) ==> (forall|q: int, t: u64|
            0 <= q < f.len() && #[trigger] f[q].terminals@.contains(t) ==> g(
                f[q].nt,
            ).contains(t))
}

/// Collect the whole terminal universe as a sorted vector: end-of-input,
/// every right-hand-side terminal, and every FIRST-set terminal.  Its
/// length caps how far any FOLLOW set can grow.
fn collect_follow_universe(rules: &Vec<Rule>, firsts: &FirstSets) -> (r: Vec<u64>)
    ensures
        term_sorted(r@),
        forall|y: u64| #[trigger]
            r@.contains(y) <==> in_follow_universe(rules@, firsts.entries@, y),
{
    let mut uni: Vec<u64> = Vec::new();
    uni.push(EOF_TERMINAL);
    proof {
        assert(uni@ =~= seq![EOF_TERMINAL]);
        assert forall|y: u64| #[trigger] uni@.contains(y) <==> y == EOF_TERMINAL by {
            if y == EOF_TERMINAL {
                assert(uni@[0] == y);
            }
            if uni@.contains(y) {
                let w = choose|w: int| 0 <= w < uni@.len() && uni@[w] == y;
                assert(w == 0);
            }
        }
    }
    let mut i: usize = 0;
    while i < rules.len()
        invariant
            term_sorted(uni@),
            i <= rules@.len(),
            forall|y: u64| #[trigger]
                uni@.contains(y) <==> (y == EOF_TERMINAL || exists|i2: int, p2: int|
                    0 <= i2 < i && 0 <= p2 < rules@[i2].rhs@.len() && (#[trigger] rules@[
                        i2
                    ].rhs@[p2]) == TerminalOrNonTerminal::Terminal(y)),
        decreases rules@.len() - i,
    {
        let mut p: usize = 0;
        while p < rules[i].rhs.len()
            invariant
                term_sorted(uni@),
                i < rules@.len(),
                p <= rules@[i as int].rhs@.len(),
                forall|y: u64| #[trigger]
                    uni@.contains(y) <==> (y == EOF_TERMINAL || exists|i2: int, p2: int|
                        ((0 <= i2 < i && 0 <= p2 < rules@[i2].rhs@.len()) || (i2 == i && 0 <= p2
                            < p)) && (#[trigger] rules@[i2].rhs@[p2])
                            == TerminalOrNonTerminal::Terminal(y)),
            decreases rules@[i as int].rhs@.len() - p,
        {
            let ghost u0 = uni@;
            let sym = rules[i].rhs[p];
            match sym {
                TerminalOrNonTerminal::Terminal(t) => {
                    sorted_insert(&mut uni, t);
                },
                TerminalOrNonTerminal::NonTerminal(_) => {},
            }
            proof {
                assert forall|y: u64| #[trigger]
                    uni@.contains(y) <==> (y == EOF_TERMINAL || exists|i2: int, p2: int|
                        ((0 <= i2 < i && 0 <= p2 < rules@[i2].rhs@.len()) || (i2 == i && 0 <= p2
                            < p + 1)) && (#[trigger] rules@[i2].rhs@[p2])
                            == TerminalOrNonTerminal::Terminal(y)) by {
                    if uni@.contains(y) && !u0.contains(y) {
                        // only this position's terminal is new
                        assert(rules@[i as int].rhs@[p as int]
                            == TerminalOrNonTerminal::Terminal(y));
                    }
                    if !uni@.contains(y) && y != EOF_TERMINAL {
                        assert(!u0.contains(y));
                        if exists|i2: int, p2: int|
                            ((0 <= i2 < i && 0 <= p2 < rules@[i2].rhs@.len()) || (i2 == i && 0
                                <= p2 < p + 1)) && (#[trigger] rules@[i2].rhs@[p2])
                                == TerminalOrNonTerminal::Terminal(y) {
                            let (i2, p2) = choose|i2: int, p2: int|
                                ((0 <= i2 < i && 0 <= p2 < rules@[i2].rhs@.len()) || (i2 == i
                                    && 0 <= p2 < p + 1)) && (#[trigger] rules@[i2].rhs@[p2])
                                    == TerminalOrNonTerminal::Terminal(y);
                            if i2 == i && p2 == p {
                                assert(uni@.contains(y));
                            } else {
                                assert(u0.contains(y));
                            }
                            assert(false);
                        }
                    }
                }
            }
            p += 1;
        }
        i += 1;
    }
    let mut q: usize = 0;
    while q < firsts.entries.len()
        invariant
            term_sorted(uni@),
            q <= firsts.entries@.len(),
            forall|y: u64| #[trigger]
                uni@.contains(y) <==> (y == EOF_TERMINAL || (exists|i2: int, p2: int|
                    0 <= i2 < rules@.len() && 0 <= p2 < rules@[i2].rhs@.len() && (
                    #[trigger] rules@[i2].rhs@[p2]) == TerminalOrNonTerminal::Terminal(y)) || (
                exists|q2: int, w2: int|
                    0 <= q2 < q && 0 <= w2 < firsts.entries@[q2].terminals@.len() && (
                    #[trigger] firsts.entries@[q2].terminals@[w2]) == y)),
        decreases firsts.entries@.len() - q,
    {
        let mut w: usize = 0;
        while w < firsts.entries[q].terminals.len()
            invariant
                term_sorted(uni@),
                q < firsts.entries@.len(),
                w <= firsts.entries@[q as int].terminals@.len(),
                forall|y: u64| #[trigger]
                    uni@.contains(y) <==> (y == EOF_TERMINAL || (exists|i2: int, p2: int|
                        0 <= i2 < rules@.len() && 0 <= p2 < rules@[i2].rhs@.len() && (
                        #[trigger] rules@[i2].rhs@[p2]) == TerminalOrNonTerminal::Terminal(y))
                        || (exists|q2: int, w2: int|
                        ((0 <= q2 < q && 0 <= w2 < firsts.entries@[q2].terminals@.len()) || (q2
                            == q && 0 <= w2 < w)) && (#[trigger] firsts.entries@[
                            q2
                        ].terminals@[w2]) == y)),
            decreases firsts.entries@[q as int].terminals@.len() - w,
        {
            let ghost u0 = uni@;
            let t = firsts.entries[q].terminals[w];
            sorted_insert(&mut uni, t);
            proof {
                assert forall|y: u64| #[trigger]
                    uni@.contains(y) <==> (y == EOF_TERMINAL || (exists|i2: int, p2: int|
                        0 <= i2 < rules@.len() && 0 <= p2 < rules@[i2].rhs@.len() && (
                        #[trigger] rules@[i2].rhs@[p2]) == TerminalOrNonTerminal::Terminal(y))
                        || (exists|q2: int, w2: int|
                        ((0 <= q2 < q && 0 <= w2 < firsts.entries@[q2].terminals@.len()) || (q2
                            == q && 0 <= w2 < w + 1)) && (#[trigger] firsts.entries@[
                            q2
                        ].terminals@[w2]) == y)) by {
                    if uni@.contains(y) && !u0.contains(y) {
                        assert(firsts.entries@[q as int].terminals@[w as int] == y);
                    }
                    if !uni@.contains(y) && y != EOF_TERMINAL {
                        assert(!u0.contains(y));
                        if exists|q2: int, w2: int|
                            ((0 <= q2 < q && 0 <= w2 < firsts.entries@[q2].terminals@.len())
                                || (q2 == q && 0 <= w2 < w + 1)) && (#[trigger] firsts.entries@[
                                q2
                            ].terminals@[w2]) == y {
                            let (q2, w2) = choose|q2: int, w2: int|
                                ((0 <= q2 < q && 0 <= w2 < firsts.entries@[q2].terminals@.len())
                                    || (q2 == q && 0 <= w2 < w + 1)) && (
                                #[trigger] firsts.entries@[q2].terminals@[w2]) == y;
                            if q2 == q && w2 == w {
                                assert(uni@.contains(y));
                            } else {
                                assert(u0.contains(y));
                            }
                            assert(false);
                        }
                    }
                }
            }
            w += 1;
        }
        q += 1;
    }
    uni
}

/// Find the entry index of `k`.
fn follow_index_of(entries: &Vec<FollowEntry>, k: u64) -> (r: Option<usize>)
    ensures
        match r {
            Some(ix) => ix < entries@.len() && entries@[ix as int].nt == k,
            None => !follow_has_key(entries@, k),
        },
{
    let mut i: usize = 0;
    while i < entries.len()
        invariant
            i <= entries@.len(),
            forall|q: int| 0 <= q < i ==> (#[trigger] entries@[q]).nt != k,
        decreases entries@.len() - i,
    {
        if entries[i].nt == k {
            return Some(i);
        }
        i += 1;
    }
    None
}

/// Copy a terminal vector.
fn copy_terminals(v: &Vec<u64>) -> (r: Vec<u64>)
    ensures
        r@ == v@,
{
    let mut r: Vec<u64> = Vec::new();
    let mut i: usize = 0;
    while i < v.len()
        invariant
            i <= v@.len(),
            r@ == v@.take(i as int),
        decreases v@.len() - i,
    {
        r.push(v[i]);
        proof {
            assert(r@ =~= v@.take(i + 1));
        }
        i += 1;
    }
    proof {
        assert(v@.take(v@.len() as int) =~= v@);
    }
    r
}

/// A union that added nothing left the set exactly as it was.
proof fn lemma_union_unchanged(old_s: Seq<u64>, new_s: Seq<u64>, src: Seq<u64>)
    requires
        term_sorted(old_s),
        term_sorted(new_s),
        forall|y: u64| #[trigger] new_s.contains(y) <==> (old_s.contains(y) || src.contains(y)),
        new_s.len() == old_s.len(),
    ensures
        new_s == old_s,
        forall|y: u64| #[trigger] src.contains(y) ==> old_s.contains(y),
{
    crate::parser_utils::ordered::lemma_sorted_no_duplicates(old_s);
    crate::parser_utils::ordered::lemma_sorted_no_duplicates(new_s);
    old_s.unique_seq_to_set();
    new_s.unique_seq_to_set();
    assert forall|y: u64| #[trigger] src.contains(y) implies old_s.contains(y) by {
        if !old_s.contains(y) {
            assert(new_s.contains(y));
            assert(old_s.to_set().subset_of(new_s.to_set().remove(y)));
            vstd::set_lib::lemma_len_subset(old_s.to_set(), new_s.to_set().remove(y));
            assert(new_s.to_set().remove(y).len() == new_s.to_set().len() - 1);
            assert(false);
        }
    }
    lemma_sorted_unique(old_s, new_s);
}

/// A terminal the FOLLOW computation can ever record: end-of-input, a
/// terminal on some rule's right-hand side, or one in the given FIRST
/// sets.  This universe is finite, which bounds the iteration.
pub open spec fn in_follow_universe(rules: Seq<Rule>, firsts: Seq<FirstEntry>, y: u64) -> bool {
    ||| y == EOF_TERMINAL
    ||| exists|i: int, p: int|
        0 <= i < rules.len() && 0 <= p < rules[i].rhs@.len() && (#[trigger] rules[i].rhs@[p])
            == TerminalOrNonTerminal::Terminal(y)
    ||| exists|q: int, w: int|
        0 <= q < firsts.len() && 0 <= w < firsts[q].terminals@.len() && (#[trigger] firsts[
            q
        ].terminals@[w]) == y
}

/// Every recorded terminal lies in the universe.
pub open spec fn follows_in_universe(
    rules: Seq<Rule>,
    firsts: Seq<FirstEntry>,
    f: Seq<FollowEntry>,
) -> bool {
    forall|q: int, y: u64|
        0 <= q < f.len() && #[trigger] f[q].terminals@.contains(y) ==> in_follow_universe(
            rules,
            firsts,
            y,
        )
}

/// The sum of all recorded FOLLOW set sizes: the measure that grows with
/// every changing pass and can never pass the universe's capacity.
pub open spec fn total_follow_len(f: Seq<FollowEntry>) -> int
    decreases f.len(),
{
    if f.len() == 0 {
        0
    } else {
        total_follow_len(f.drop_last()) + f.last().terminals@.len()
    }
}

/// Changing one entry moves the total by that entry's size difference.
proof fn lemma_total_update(f: Seq<FollowEntry>, g: Seq<FollowEntry>, ib: int)
    requires
        f.len() == g.len(),
        0 <= ib < f.len(),
        forall|q: int| 0 <= q < f.len() && q != ib ==> g[q] == f[q],
    ensures
        total_follow_len(g) == total_follow_len(f) - f[ib].terminals@.len()
            + g[ib].terminals@.len(),
    decreases f.len(),
{
    if ib == f.len() - 1 {
        assert(f.drop_last() =~= g.drop_last());
    } else {
        assert forall|q: int|
            0 <= q < f.drop_last().len() && q != ib implies g.drop_last()[q] == f.drop_last()[
            q
        ] by {
            assert(g[q] == f[q]);
        }
        lemma_total_update(f.drop_last(), g.drop_last(), ib);
        assert(f.last() == g.last());
        assert(f.drop_last()[ib] == f[ib]);
        assert(g.drop_last()[ib] == g[ib]);
    }
}

/// A sorted sequence drawn from a sorted universe is no longer than it.
proof fn lemma_terms_len_le_universe(a: Seq<u64>, u: Seq<u64>)
    requires
        term_sorted(a),
        term_sorted(u),
        forall|y: u64| #[trigger] a.contains(y) ==> u.contains(y),
    ensures
        a.len() <= u.len(),
{
    broadcast use vstd::seq_lib::seq_to_set_is_finite;

    crate::parser_utils::ordered::lemma_sorted_no_duplicates(a);
    crate::parser_utils::ordered::lemma_sorted_no_duplicates(u);
    a.unique_seq_to_set();
    u.unique_seq_to_set();
    assert(a.to_set().subset_of(u.to_set()));
    vstd::set_lib::lemma_len_subset(a.to_set(), u.to_set());
}

/// The total is non-negative and capped by one universe per entry.
proof fn lemma_total_bounded(f: Seq<FollowEntry>, u: Seq<u64>)
    requires
        term_sorted(u),
        forall|q: int| 0 <= q < f.len() ==> term_sorted((#[trigger] f[q]).terminals@),
        forall|q: int, y: u64|
            0 <= q < f.len() && #[trigger] f[q].terminals@.contains(y) ==> u.contains(y),
    ensures
        0 <= total_follow_len(f),
        total_follow_len(f) <= f.len() * u.len(),
    decreases f.len(),
{
    if f.len() > 0 {
        let d = f.drop_last();
        assert forall|q: int| 0 <= q < d.len() implies term_sorted(
            (#[trigger] d[q]).terminals@,
        ) by {
            assert(d[q] == f[q]);
        }
        assert forall|q: int, y: u64|
            0 <= q < d.len() && #[trigger] d[q].terminals@.contains(y) implies u.contains(y) by {
            assert(d[q] == f[q]);
            assert(f[q].terminals@.contains(y));
        }
        lemma_total_bounded(d, u);
        lemma_terms_len_le_universe(f.last().terminals@, u);
        assert((f.len() - 1) * u.len() + u.len() == f.len() * u.len()) by (nonlinear_arith);
    }
}

/// Two FOLLOW maps agree entry for entry (keys and set contents).
pub open spec fn follow_views_eq(a: Seq<FollowEntry>, b: Seq<FollowEntry>) -> bool {
    &&& a.len() == b.len()
    &&& forall|q: int|
        0 <= q < a.len() ==> (#[trigger] a[q]).nt == b[q].nt && a[q].terminals@ == b[q].terminals@
}

/// Recorded containment only depends on the entries' contents.
proof fn lemma_val_contains_transfer(a: Seq<FollowEntry>, b: Seq<FollowEntry>)
    requires
        follow_views_eq(a, b),
    ensures
        forall|k: u64, t: u64|
            #[trigger] follow_val_contains(a, k, t) <==> #[trigger] follow_val_contains(b, k, t),
{
    assert forall|k: u64, t: u64|
        #[trigger] follow_val_contains(a, k, t) <==> #[trigger] follow_val_contains(
        b,
        k,
        t,
    ) by {
        if follow_val_contains(a, k, t) {
            let q = choose|q: int|
                0 <= q < a.len() && (#[trigger] a[q]).nt == k && a[q].terminals@.contains(t);
            assert(b[q].nt == k && b[q].terminals@.contains(t));
        }
        if follow_val_contains(b, k, t) {
            let q = choose|q: int|
                0 <= q < b.len() && (#[trigger] b[q]).nt == k && b[q].terminals@.contains(t);
            assert(a[q].nt == k && a[q].terminals@.contains(t));
        }
    }
}

/// A constraint that holds of one map holds of any map with the same
/// contents.
proof fn lemma_constraint_transfer(
    rules: Seq<Rule>,
    a: Seq<FollowEntry>,
    b: Seq<FollowEntry>,
    i: int,
    p: int,
)
    requires
        follow_views_eq(a, b),
        0 <= i < rules.len(),
        0 <= p < rules[i].rhs@.len(),
        follow_constraint_ok(rules, a, i, p),
    ensures
        follow_constraint_ok(rules, b, i, p),
{
    lemma_val_contains_transfer(a, b);
    let bb = rules[i].rhs@[p]->NonTerminal_0;
    if p == rules[i].rhs@.len() - 1 {
        assert forall|t: u64|
            follow_val_contains(b, rules[i].lhs, t) implies follow_val_contains(b, bb, t) by {
            assert(follow_val_contains(a, rules[i].lhs, t));
            assert(follow_val_contains(a, bb, t));
        }
    } else {
        match rules[i].rhs@[p + 1] {
            TerminalOrNonTerminal::Terminal(t) => {
                assert(follow_val_contains(a, bb, t));
                assert(follow_val_contains(b, bb, t));
            },
            TerminalOrNonTerminal::NonTerminal(c) => {
                assert forall|t: u64|
                    first_of(rules, c).contains(t) implies follow_val_contains(b, bb, t) by {
                    assert(follow_val_contains(a, bb, t));
                }
            },
        }
    }
}

/// One constraint application: extend FOLLOW of `entries[ib]` with `src`;
/// report whether anything was new.
fn follow_extend(entries: &mut Vec<FollowEntry>, ib: usize, src: &Vec<u64>) -> (changed: bool)
    requires
        ib < old(entries)@.len(),
        forall|q: int|
            0 <= q < old(entries)@.len() ==> term_sorted(
                (#[trigger] old(entries)@[q]).terminals@,
            ),
    ensures
        final(entries)@.len() == old(entries)@.len(),
        forall|q: int|
            0 <= q < final(entries)@.len() ==> (#[trigger] final(entries)@[q]).nt == old(
                entries,
            )@[q].nt && term_sorted(final(entries)@[q].terminals@),
        forall|q: int|
            0 <= q < final(entries)@.len() && q != ib ==> (#[trigger] final(entries)@[q])
                == old(entries)@[q],
        forall|y: u64|
            #[trigger] final(entries)@[ib as int].terminals@.contains(y) <==> (old(
                entries,
            )@[ib as int].terminals@.contains(y) || src@.contains(y)),
        !changed ==> follow_views_eq(old(entries)@, final(entries)@) && (forall|y: u64| #[trigger]
            src@.contains(y) ==> old(entries)@[ib as int].terminals@.contains(y)),
        total_follow_len(final(entries)@) >= total_follow_len(old(entries)@),
        changed ==> total_follow_len(final(entries)@) > total_follow_len(old(entries)@),
{
    let ghost orig = entries@;
    let before_len = entries[ib].terminals.len();
    let e = &mut entries[ib];
    sorted_union(&mut e.terminals, src);
    let after_len = entries[ib].terminals.len();
    let changed = after_len != before_len;
    proof {
        broadcast use vstd::seq_lib::seq_to_set_is_finite;

        assert(entries@ == orig.update(ib as int, entries@[ib as int]));
        assert(entries@[ib as int].nt == orig[ib as int].nt);
        if !changed {
            lemma_union_unchanged(
                orig[ib as int].terminals@,
                entries@[ib as int].terminals@,
                src@,
            );
        }
        // the union only adds, so the touched entry cannot have shrunk
        crate::parser_utils::ordered::lemma_sorted_no_duplicates(orig[ib as int].terminals@);
        crate::parser_utils::ordered::lemma_sorted_no_duplicates(entries@[ib as int].terminals@);
        orig[ib as int].terminals@.unique_seq_to_set();
        entries@[ib as int].terminals@.unique_seq_to_set();
        assert(orig[ib as int].terminals@.to_set().subset_of(
            entries@[ib as int].terminals@.to_set(),
        ));
        vstd::set_lib::lemma_len_subset(
            orig[ib as int].terminals@.to_set(),
            entries@[ib as int].terminals@.to_set(),
        );
        lemma_total_update(orig, entries@, ib as int);
    }
    changed
}

/// One full pass over all rules and positions.  When it reports no change,
/// the map it returned satisfies every FOLLOW constraint.
fn follow_pass(rules: &Vec<Rule>, firsts: &FirstSets, entries: &mut Vec<FollowEntry>) -> (changed:
    bool)
    requires
        rules_wf(rules@),
        all_rhs_nts_have_rules(rules@),
        firsts_wf(rules@, firsts.entries@),
        follows_wf(rules@, old(entries)@),
        follows_minimal(rules@, old(entries)@),
        follows_in_universe(rules@, firsts.entries@, old(entries)@),
    ensures
        follows_wf(rules@, final(entries)@),
        follows_minimal(rules@, final(entries)@),
        follows_in_universe(rules@, firsts.entries@, final(entries)@),
        final(entries)@.len() == old(entries)@.len(),
        forall|q: int|
            0 <= q < final(entries)@.len() ==> (#[trigger] final(entries)@[q]).nt == old(
                entries,
            )@[q].nt,
        forall|q: int, y: u64|
            0 <= q < old(entries)@.len() && (#[trigger] old(entries)@[q].terminals@.contains(y))
                ==> final(entries)@[q].terminals@.contains(y),
        !changed ==> follows_closed(rules@, final(entries)@),
        total_follow_len(final(entries)@) >= total_follow_len(old(entries)@),
        changed ==> total_follow_len(final(entries)@) > total_follow_len(old(entries)@),
{
    let ghost f0 = entries@;
    let mut changed = false;
    let mut i: usize = 0;
    while i < rules.len()
        invariant
            rules_wf(rules@),
            all_rhs_nts_have_rules(rules@),
            firsts_wf(rules@, firsts.entries@),
            follows_wf(rules@, entries@),
            follows_minimal(rules@, entries@),
            i <= rules@.len(),
            entries@.len() == f0.len(),
            forall|q: int| 0 <= q < entries@.len() ==> (#[trigger] entries@[q]).nt == f0[q].nt,
            forall|q: int, y: u64|
                0 <= q < f0.len() && (#[trigger] f0[q].terminals@.contains(y))
                    ==> entries@[q].terminals@.contains(y),
            !changed ==> (forall|i2: int, p2: int|
                0 <= i2 < i && 0 <= p2 < rules@[i2].rhs@.len()
                    && (#[trigger] rules@[i2].rhs@[p2]) is NonTerminal
                    ==> follow_constraint_ok(rules@, entries@, i2, p2)),
            follows_in_universe(rules@, firsts.entries@, entries@),
            total_follow_len(entries@) >= total_follow_len(f0),
            changed ==> total_follow_len(entries@) > total_follow_len(f0),
        decreases rules@.len() - i,
    {
        let mut p: usize = 0;
        while p < rules[i].rhs.len()
            invariant
                rules_wf(rules@),
                all_rhs_nts_have_rules(rules@),
                firsts_wf(rules@, firsts.entries@),
                follows_wf(rules@, entries@),
                follows_minimal(rules@, entries@),
                i < rules@.len(),
                p <= rules@[i as int].rhs@.len(),
                entries@.len() == f0.len(),
                forall|q: int|
                    0 <= q < entries@.len() ==> (#[trigger] entries@[q]).nt == f0[q].nt,
                forall|q: int, y: u64|
                    0 <= q < f0.len() && (#[trigger] f0[q].terminals@.contains(y))
                        ==> entries@[q].terminals@.contains(y),
                !changed ==> (forall|i2: int, p2: int|
                    ((0 <= i2 < i && 0 <= p2 < rules@[i2].rhs@.len()) || (i2 == i && 0 <= p2
                        < p)) && (#[trigger] rules@[i2].rhs@[p2]) is NonTerminal
                        ==> follow_constraint_ok(rules@, entries@, i2, p2)),
                follows_in_universe(rules@, firsts.entries@, entries@),
                total_follow_len(entries@) >= total_follow_len(f0),
                changed ==> total_follow_len(entries@) > total_follow_len(f0),
            decreases rules@[i as int].rhs@.len() - p,
        {
            let ghost eh = entries@;
            let ghost changed_h = changed;
            let sym = rules[i].rhs[p];
            match sym {
                TerminalOrNonTerminal::NonTerminal(b) => {
                    // the source set the constraint pours into FOLLOW(b)
                    let src: Vec<u64>;
                    let ghost mut src_ix: int = 0;
                    if p + 1 < rules[i].rhs.len() {
                        let after = rules[i].rhs[p + 1];
                        match after {
                            TerminalOrNonTerminal::Terminal(t) => {
                                let mut one: Vec<u64> = Vec::new();
                                one.push(t);
                                src = one;
                                proof {
                                    assert(src@ =~= seq![t]);
                                    assert(rules@[i as int].rhs@[p + 1]
                                        == TerminalOrNonTerminal::Terminal(t));
                                    assert forall|y: u64| #[trigger]
                                        src@.contains(y) implies in_follow_universe(
                                        rules@,
                                        firsts.entries@,
                                        y,
                                    ) by {
                                        let w = choose|w: int|
                                            0 <= w < src@.len() && src@[w] == y;
                                        assert(y == t);
                                    }
                                }
                            },
                            TerminalOrNonTerminal::NonTerminal(c) => {
                                proof {
                                    assert(rules@[i as int].rhs@[p + 1] is NonTerminal);
                                    assert(exists|j: int|
                                        0 <= j < rules@.len() && (#[trigger] rules@[j].lhs)
                                            == c);
                                    assert(crate::parser_utils::first::firsts_has_key(
                                        firsts.entries@,
                                        c,
                                    ));
                                }
                                let got = firsts.get(c);
                                match got {
                                    Some(v) => {
                                        src = copy_terminals(v);
                                        proof {
                                            let qf = choose|qf: int|
                                                0 <= qf < firsts.entries@.len() && (
                                                #[trigger] firsts.entries@[qf]).nt == c && v@
                                                    == firsts.entries@[qf].terminals@;
                                            assert(forall|t2: u64|
                                                src@.contains(t2) <==> first_of(
                                                    rules@,
                                                    c,
                                                ).contains(t2));
                                            assert forall|y: u64| #[trigger]
                                                src@.contains(y) implies in_follow_universe(
                                                rules@,
                                                firsts.entries@,
                                                y,
                                            ) by {
                                                let w = choose|w: int|
                                                    0 <= w < src@.len() && src@[w] == y;
                                                assert(firsts.entries@[qf].terminals@[w] == y);
                                            }
                                        }
                                    },
                                    None => {
                                        proof {
                                            assert(false);
                                        }
                                        src = Vec::new();
                                    },
                                }
                            },
                        }
                    } else {
                        proof {
                            assert(rules@[i as int].rhs@[p as int] is NonTerminal);
                            assert(exists|j: int|
                                0 <= j < rules@.len() && (#[trigger] rules@[j].lhs)
                                    == rules@[i as int].lhs) by {
                                assert(rules@[i as int].lhs == rules@[i as int].lhs);
                            }
                        }
                        let ia = follow_index_of(entries, rules[i].lhs);
                        match ia {
                            Some(ix) => {
                                src = copy_terminals(&entries[ix].terminals);
                                proof {
                                    src_ix = ix as int;
                                    assert forall|y: u64| #[trigger]
                                        src@.contains(y) implies in_follow_universe(
                                        rules@,
                                        firsts.entries@,
                                        y,
                                    ) by {
                                        assert(entries@[ix as int].terminals@.contains(y));
                                    }
                                }
                            },
                            None => {
                                proof {
                                    assert(follow_has_key(entries@, rules@[i as int].lhs));
                                    assert(false);
                                }
                                src = Vec::new();
                            },
                        }
                    }
                    let ib_opt = follow_index_of(entries, b);
                    let ib = match ib_opt {
                        Some(ix) => ix,
                        None => {
                            proof {
                                assert(rules@[i as int].rhs@[p as int] is NonTerminal);
                                assert(exists|j: int|
                                    0 <= j < rules@.len() && (#[trigger] rules@[j].lhs) == b);
                                assert(follow_has_key(entries@, b));
                                assert(false);
                            }
                            0
                        },
                    };
                    let step_changed = follow_extend(entries, ib, &src);
                    if step_changed {
                        changed = true;
                    }
                    proof {
                        assert forall|q: int, y: u64|
                            0 <= q < f0.len() && #[trigger] f0[q].terminals@.contains(
                                y,
                            ) implies entries@[q].terminals@.contains(y) by {
                            assert(eh[q].terminals@.contains(y));
                            if q == ib {
                                assert(eh[ib as int].terminals@.contains(y));
                                assert(entries@[ib as int].terminals@.contains(y));
                            } else {
                                assert(entries@[q] == eh[q]);
                            }
                        }
                        // minimality survives: everything added is forced
                        // by a constraint
                        assert(follows_minimal(rules@, entries@)) by {
                            assert forall|g: spec_fn(u64) -> Set<u64>|
                                #[trigger] follows_models(rules@, g) implies (forall|
                                q: int,
                                t: u64,
                            |
                                0 <= q < entries@.len()
                                    && #[trigger] entries@[q].terminals@.contains(t) ==> g(
                                    entries@[q].nt,
                                ).contains(t)) by {
                                assert(model_constraint_ok(rules@, g, i as int, p as int));
                                assert forall|q: int, t: u64|
                                    0 <= q < entries@.len()
                                        && #[trigger] entries@[q].terminals@.contains(
                                        t,
                                    ) implies g(entries@[q].nt).contains(t) by {
                                    if q == ib && !eh[q].terminals@.contains(t) {
                                        assert(src@.contains(t));
                                        assert(entries@[q].nt == b);
                                        if p + 1 < rules@[i as int].rhs@.len() {
                                            match rules@[i as int].rhs@[p + 1] {
                                                TerminalOrNonTerminal::Terminal(t2) => {
                                                    assert(src@[0] == t2);
                                                    assert(t == t2);
                                                    assert(g(b).contains(t));
                                                },
                                                TerminalOrNonTerminal::NonTerminal(c) => {
                                                    assert(first_of(rules@, c).contains(t));
                                                    assert(g(b).contains(t));
                                                },
                                            }
                                        } else {
                                            // src is the current FOLLOW of the
                                            // left-hand side, already inside g
                                            assert(eh[src_ix].nt == rules@[i as int].lhs);
                                            assert(src@ == eh[src_ix].terminals@);
                                            assert(eh[src_ix].terminals@.contains(t));
                                            assert(g(eh[src_ix].nt).contains(t));
                                            assert(g(rules@[i as int].lhs).contains(t));
                                            assert(g(b).contains(t));
                                        }
                                    } else {
                                        assert(eh[q].terminals@.contains(t));
                                        assert(g(eh[q].nt).contains(t));
                                        assert(entries@[q].nt == eh[q].nt);
                                    }
                                }
                            }
                        }
                        // structural shape survives the extension
                        assert(follows_wf(rules@, entries@)) by {
                            assert forall|p2: int, q2: int|
                                0 <= p2 < q2 < entries@.len() implies (#[trigger] entries@[
                                p2
                            ]).nt < (#[trigger] entries@[q2]).nt by {
                                assert(eh[p2].nt < eh[q2].nt);
                            }
                            assert forall|k: u64|
                                follow_has_key(entries@, k) <==> exists|j: int|
                                    0 <= j < rules@.len() && (#[trigger] rules@[j].lhs)
                                        == k by {
                                if follow_has_key(entries@, k) {
                                    let x = choose|x: int|
                                        0 <= x < entries@.len() && (#[trigger] entries@[x]).nt
                                            == k;
                                    assert(eh[x].nt == k);
                                    assert(follow_has_key(eh, k));
                                }
                                if exists|j: int|
                                    0 <= j < rules@.len() && (#[trigger] rules@[j].lhs) == k {
                                    assert(follow_has_key(eh, k));
                                    let x = choose|x: int|
                                        0 <= x < eh.len() && (#[trigger] eh[x]).nt == k;
                                    assert(entries@[x].nt == k);
                                }
                            }
                        }
                        // every recorded terminal stays inside the universe
                        assert(follows_in_universe(rules@, firsts.entries@, entries@)) by {
                            assert forall|q: int, y: u64|
                                0 <= q < entries@.len()
                                    && #[trigger] entries@[q].terminals@.contains(
                                    y,
                                ) implies in_follow_universe(rules@, firsts.entries@, y) by {
                                if q == ib as int {
                                    if !eh[q].terminals@.contains(y) {
                                        assert(src@.contains(y));
                                    } else {
                                        assert(eh[q].terminals@.contains(y));
                                    }
                                } else {
                                    assert(entries@[q] == eh[q]);
                                    assert(eh[q].terminals@.contains(y));
                                }
                            }
                        }
                        if !changed {
                            assert(!changed_h && !step_changed);
                            assert(follow_views_eq(eh, entries@));
                            // the constraint just applied now holds
                            assert(follow_constraint_ok(rules@, entries@, i as int, p as int))
                                by {
                                let bb = rules@[i as int].rhs@[p as int]->NonTerminal_0;
                                assert(bb == b);
                                assert(entries@[ib as int].nt == b);
                                if p == rules@[i as int].rhs@.len() - 1 {
                                    assert forall|t: u64|
                                        follow_val_contains(
                                            entries@,
                                            rules@[i as int].lhs,
                                            t,
                                        ) implies follow_val_contains(entries@, b, t) by {
                                        let q = choose|q: int|
                                            0 <= q < entries@.len() && (#[trigger] entries@[
                                                q
                                            ]).nt == rules@[i as int].lhs
                                                && entries@[q].terminals@.contains(t);
                                        // keys are unique, so q is the source row
                                        assert(eh[src_ix].nt == rules@[i as int].lhs);
                                        assert(entries@[src_ix].nt == rules@[i as int].lhs);
                                        if q != src_ix {
                                            if q < src_ix {
                                                assert(entries@[q].nt < entries@[src_ix].nt);
                                            } else {
                                                assert(entries@[src_ix].nt < entries@[q].nt);
                                            }
                                            assert(false);
                                        }
                                        assert(src@ == eh[src_ix].terminals@);
                                        assert(entries@[src_ix].terminals@
                                            == eh[src_ix].terminals@);
                                        assert(src@.contains(t));
                                        assert(eh[ib as int].terminals@.contains(t));
                                        assert(entries@[ib as int].terminals@.contains(t));
                                    }
                                } else {
                                    match rules@[i as int].rhs@[p + 1] {
                                        TerminalOrNonTerminal::Terminal(t) => {
                                            assert(src@[0] == t);
                                            assert(src@.contains(t));
                                            assert(eh[ib as int].terminals@.contains(t));
                                            assert(entries@[ib as int].terminals@.contains(t));
                                            assert(follow_val_contains(entries@, b, t));
                                        },
                                        TerminalOrNonTerminal::NonTerminal(c) => {
                                            assert forall|t: u64|
                                                first_of(rules@, c).contains(
                                                    t,
                                                ) implies follow_val_contains(
                                                entries@,
                                                b,
                                                t,
                                            ) by {
                                                assert(src@.contains(t));
                                                assert(eh[ib as int].terminals@.contains(t));
                                                assert(entries@[
                                                    ib as int
                                                ].terminals@.contains(t));
                                            }
                                        },
                                    }
                                }
                            }
                        }
                    }
                },
                TerminalOrNonTerminal::Terminal(_) => {
                },
            }
            proof {
                if !changed {
                    assert forall|i2: int, p2: int|
                        ((0 <= i2 < i && 0 <= p2 < rules@[i2].rhs@.len()) || (i2 == i && 0 <= p2
                            < p + 1)) && (#[trigger] rules@[i2].rhs@[p2])
                            is NonTerminal implies follow_constraint_ok(
                        rules@,
                        entries@,
                        i2,
                        p2,
                    ) by {
                        if i2 == i && p2 == p {
                            assert(follow_constraint_ok(rules@, entries@, i2, p2));
                        } else {
                            assert(follow_constraint_ok(rules@, eh, i2, p2));
                            if follow_views_eq(eh, entries@) {
                                lemma_constraint_transfer(rules@, eh, entries@, i2, p2);
                            } else {
                                assert(eh == entries@);
                            }
                        }
                    }
                }
            }
            p += 1;
        }
        i += 1;
    }
    changed
}

/// FOLLOW of every left-hand non-terminal, iterated to a fixed point.  The
/// returned map is structurally well formed, records end-of-input after
/// the start symbol, satisfies every FOLLOW constraint, and is the least
/// such map.  The iteration provably terminates — growth is monotone over
/// the finite terminal universe — so the result is always present.
pub fn compute_follows(rules: &Vec<Rule>, computed_firsts: Option<&FirstSets>) -> (r: Option<
    FollowSets,
>)
    requires
        rules_wf(rules@),
        all_rhs_nts_have_rules(rules@),
        exists|j: int|
            0 <= j < rules@.len() && (#[trigger] rules@[j].lhs) == START_NONTERMINAL,
        match computed_firsts {
            Some(f) => firsts_wf(rules@, f.entries@),
            None => true,
        },
    ensures
        r is Some,
        match r {
            Some(f) => {
                &&& follows_wf(rules@, f.entries@)
                &&& follow_val_contains(f.entries@, START_NONTERMINAL, EOF_TERMINAL)
                &&& follows_closed(rules@, f.entries@)
                &&& follows_minimal(rules@, f.entries@)
            },
            None => true,
        },
{
    match computed_firsts {
        Some(f) => compute_follows_with(rules, f),
        None => {
            let f = compute_firsts(rules);
            compute_follows_with(rules, &f)
        },
    }
}

fn compute_follows_with(rules: &Vec<Rule>, firsts: &FirstSets) -> (r: Option<FollowSets>)
    requires
        rules_wf(rules@),
        all_rhs_nts_have_rules(rules@),
        exists|j: int|
            0 <= j < rules@.len() && (#[trigger] rules@[j].lhs) == START_NONTERMINAL,
        firsts_wf(rules@, firsts.entries@),
    ensures
        r is Some,
        match r {
            Some(f) => {
                &&& follows_wf(rules@, f.entries@)
                &&& follow_val_contains(f.entries@, START_NONTERMINAL, EOF_TERMINAL)
                &&& follows_closed(rules@, f.entries@)
                &&& follows_minimal(rules@, f.entries@)
            },
            None => true,
        },
{
    // Collect the keys: every left-hand non-terminal, in order.
    let mut keys: Vec<u64> = Vec::new();
    let mut i: usize = 0;
    while i < rules.len()
        invariant
            term_sorted(keys@),
            i <= rules@.len(),
            forall|k: u64|
                keys@.contains(k) <==> exists|j: int| 0 <= j < i && (#[trigger] rules@[j].lhs)
                    == k,
        decreases rules@.len() - i,
    {
        sorted_insert(&mut keys, rules[i].lhs);
        proof {
            assert forall|k: u64|
                keys@.contains(k) <==> exists|j: int| 0 <= j < i + 1 && (#[trigger] rules@[
                    j
                ].lhs) == k by {
                if keys@.contains(k) {
                    if k == rules@[i as int].lhs {
                        assert(rules@[i as int].lhs == k);
                    }
                }
            }
        }
        i += 1;
    }
    // Initial map: empty everywhere, end-of-input after the start symbol.
    let mut entries: Vec<FollowEntry> = Vec::new();
    let mut q: usize = 0;
    while q < keys.len()
        invariant
            term_sorted(keys@),
            q <= keys@.len(),
            entries@.len() == q,
            forall|x: int| 0 <= x < q ==> (#[trigger] entries@[x]).nt == keys@[x],
            forall|x: int|
                0 <= x < q ==> term_sorted((#[trigger] entries@[x]).terminals@) && (
                entries@[x].nt == START_NONTERMINAL ==> entries@[x].terminals@ == seq![
                    EOF_TERMINAL,
                ]) && (entries@[x].nt != START_NONTERMINAL ==> entries@[x].terminals@.len()
                    == 0),
        decreases keys@.len() - q,
    {
        let k = keys[q];
        let mut terminals: Vec<u64> = Vec::new();
        if k == START_NONTERMINAL {
            terminals.push(EOF_TERMINAL);
            proof {
                assert(terminals@ =~= seq![EOF_TERMINAL]);
            }
        }
        entries.push(FollowEntry { nt: k, terminals });
        q += 1;
    }
    proof {
        assert forall|k: u64|
            follow_has_key(entries@, k) <==> exists|j: int| 0 <= j < rules@.len() && (
            #[trigger] rules@[j].lhs) == k by {
            if follow_has_key(entries@, k) {
                let x = choose|x: int| 0 <= x < entries@.len() && (#[trigger] entries@[x]).nt
                    == k;
                assert(keys@[x] == k);
                assert(keys@.contains(k));
            }
            if exists|j: int| 0 <= j < rules@.len() && (#[trigger] rules@[j].lhs) == k {
                assert(keys@.contains(k));
                let x = choose|x: int| 0 <= x < keys@.len() && keys@[x] == k;
                assert(entries@[x].nt == k);
            }
        }
        assert forall|p2: int, q2: int| 0 <= p2 < q2 < entries@.len() implies (
        #[trigger] entries@[p2]).nt < (#[trigger] entries@[q2]).nt by {
            assert(keys@[p2].lt_spec(keys@[q2]));
        }
        assert(follow_val_contains(entries@, START_NONTERMINAL, EOF_TERMINAL)) by {
            assert(exists|j: int|
                0 <= j < rules@.len() && (#[trigger] rules@[j].lhs) == START_NONTERMINAL);
            assert(follow_has_key(entries@, START_NONTERMINAL));
            let x = choose|x: int|
                0 <= x < entries@.len() && (#[trigger] entries@[x]).nt == START_NONTERMINAL;
            assert(entries@[x].terminals@[0] == EOF_TERMINAL);
            assert(entries@[x].terminals@.contains(EOF_TERMINAL));
        }
        // the initial map only ever records end-of-input after the start
        // symbol, which every assignment has
        assert(follows_minimal(rules@, entries@)) by {
            assert forall|g: spec_fn(u64) -> Set<u64>|
                #[trigger] follows_models(rules@, g) implies (forall|q: int, t: u64|
                0 <= q < entries@.len() && #[trigger] entries@[q].terminals@.contains(t)
                    ==> g(entries@[q].nt).contains(t)) by {
                assert forall|q: int, t: u64|
                    0 <= q < entries@.len() && #[trigger] entries@[q].terminals@.contains(
                        t,
                    ) implies g(entries@[q].nt).contains(t) by {
                    if entries@[q].nt == START_NONTERMINAL {
                        assert(entries@[q].terminals@.len() == 1);
                        assert(entries@[q].terminals@[0] == EOF_TERMINAL);
                        let w = choose|w: int|
                            0 <= w < entries@[q].terminals@.len() && entries@[q].terminals@[w]
                                == t;
                        assert(t == EOF_TERMINAL);
                    } else {
                        assert(entries@[q].terminals@.len() == 0);
                    }
                }
            }
        }
    }
    // Iterate to the fixed point.  Growth is monotone and confined to the
    // finite terminal universe, so the total size strictly grows with
    // every changing pass and can never pass one universe per entry: the
    // iteration terminates, with no budget needed.
    let uni = collect_follow_universe(rules, firsts);
    proof {
        assert(follows_in_universe(rules@, firsts.entries@, entries@)) by {
            assert forall|q: int, y: u64|
                0 <= q < entries@.len() && #[trigger] entries@[q].terminals@.contains(
                    y,
                ) implies in_follow_universe(rules@, firsts.entries@, y) by {
                if entries@[q].nt == START_NONTERMINAL {
                    assert(entries@[q].terminals@ == seq![EOF_TERMINAL]);
                    let w = choose|w: int|
                        0 <= w < entries@[q].terminals@.len() && entries@[q].terminals@[w] == y;
                    assert(y == EOF_TERMINAL);
                } else {
                    assert(entries@[q].terminals@.len() == 0);
                }
            }
        }
    }
    loop
        invariant
            rules_wf(rules@),
            all_rhs_nts_have_rules(rules@),
            firsts_wf(rules@, firsts.entries@),
            follows_wf(rules@, entries@),
            follows_minimal(rules@, entries@),
            follow_val_contains(entries@, START_NONTERMINAL, EOF_TERMINAL),
            follows_in_universe(rules@, firsts.entries@, entries@),
            term_sorted(uni@),
            forall|y: u64| #[trigger]
                uni@.contains(y) <==> in_follow_universe(rules@, firsts.entries@, y),
        decreases entries@.len() * uni@.len() + 1 - total_follow_len(entries@),
    {
        let ghost before = entries@;
        proof {
            assert forall|q: int, y: u64|
                0 <= q < before.len() && #[trigger] before[q].terminals@.contains(
                    y,
                ) implies uni@.contains(y) by {
                assert(in_follow_universe(rules@, firsts.entries@, y));
            }
            lemma_total_bounded(before, uni@);
        }
        let changed = follow_pass(rules, firsts, &mut entries);
        proof {
            assert(follow_val_contains(entries@, START_NONTERMINAL, EOF_TERMINAL)) by {
                let x = choose|x: int|
                    0 <= x < before.len() && (#[trigger] before[x]).nt == START_NONTERMINAL
                        && before[x].terminals@.contains(EOF_TERMINAL);
                assert(entries@[x].nt == START_NONTERMINAL);
                assert(entries@[x].terminals@.contains(EOF_TERMINAL));
            }
            assert forall|q: int, y: u64|
                0 <= q < entries@.len() && #[trigger] entries@[q].terminals@.contains(
                    y,
                ) implies uni@.contains(y) by {
                assert(in_follow_universe(rules@, firsts.entries@, y));
            }
            lemma_total_bounded(entries@, uni@);
        }
        if !changed {
            return Some(FollowSets { entries });
        }
    }
}

/// Decide [`all_rhs_nts_have_rules`], so that callers can test the FOLLOW
/// computation's grammar precondition at run time.
pub fn check_all_rhs_nts_have_rules(rules: &Vec<Rule>) -> (r: bool)
    ensures
        r == all_rhs_nts_have_rules(rules@),
{
    let mut i: usize = 0;
    while i < rules.len()
        invariant
            i <= rules@.len(),
            forall|i2: int, p2: int|
                0 <= i2 < i && 0 <= p2 < rules@[i2].rhs@.len() && (#[trigger] rules@[i2].rhs@[
                    p2
                ]) is NonTerminal ==> exists|j: int|
                    0 <= j < rules@.len() && (#[trigger] rules@[j].lhs) == rules@[i2].rhs@[
                        p2
                    ]->NonTerminal_0,
        decreases rules@.len() - i,
    {
        let mut p: usize = 0;
        while p < rules[i].rhs.len()
            invariant
                i < rules@.len(),
                p <= rules@[i as int].rhs@.len(),
                forall|p2: int|
                    0 <= p2 < p && (#[trigger] rules@[i as int].rhs@[p2]) is NonTerminal
                        ==> exists|j: int|
                        0 <= j < rules@.len() && (#[trigger] rules@[j].lhs) == rules@[
                            i as int
                        ].rhs@[p2]->NonTerminal_0,
            decreases rules@[i as int].rhs@.len() - p,
        {
            let sym = rules[i].rhs[p];
            match sym {
                TerminalOrNonTerminal::NonTerminal(m) => {
                    if !crate::parser_types::rule::has_lhs_rule(rules, m) {
                        proof {
                            assert(rules@[i as int].rhs@[p as int] is NonTerminal);
                            assert(!all_rhs_nts_have_rules(rules@));
                        }
                        return false;
                    }
                },
                TerminalOrNonTerminal::Terminal(_) => {},
            }
            p += 1;
        }
        i += 1;
    }
    true
}

} // verus!

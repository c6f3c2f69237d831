//! ACTION and GOTO tables, their derivation from the automaton, and the
//! shift-reduce driver loop.  Tables are sparse, canonically sorted
//! association vectors; writes are unconditional, so on a grammar with
//! genuine conflicts the entry computed last wins, exactly as the fold
//! specification says.  The generator's result equals the specification
//! fold, which makes table generation deterministic.

use vstd::prelude::*;
use vstd::string::StringExecFns;
use crate::EOF_TERMINAL;
use crate::parser_types::lr1item::{item_next_symbol, LR1Item};
use crate::parser_types::lr1state::{build_result, generate_lr1_statemachine, gview, lemma_construction_deterministic, machine_wf, LR1State, Transition};
use crate::parser_types::rule::{rules_wf, Rule};
use crate::parser_types::terminal_or_nonterminal::TerminalOrNonTerminal;
use crate::parser_utils::closure::tail_nts_have_rules;
use crate::parser_utils::ordered::{lemma_sorted_unique, TotalOrdered};

verus! {

/// A parse action: shift to a state, reduce by a rule, or accept.
#[derive(Copy, Clone, Debug, PartialEq, Eq, Structural)]
pub enum Action {
    Shift(usize),
    Reduce(usize),
    Accept,
}

/// An ACTION-table key: a state paired with a terminal.
#[derive(Copy, Clone, Debug, PartialEq, Eq, Structural)]
pub struct StateTerminal {
    pub state: usize,
    pub terminal: u64,
}

/// A GOTO-table key: a state paired with a non-terminal.
#[derive(Copy, Clone, Debug, PartialEq, Eq, Structural)]
pub struct StateNonTerminal {
    pub state: usize,
    pub nonterminal: u64,
}

impl TotalOrdered for StateTerminal {
    open spec fn lt_spec(self, other: Self) -> bool {
        ||| self.state < other.state
        ||| (self.state == other.state && self.terminal < other.terminal)
    }

    proof fn lemma_total(a: Self, b: Self, c: Self) {
    }

    fn lt(&self, other: &Self) -> (r: bool) {
        if self.state != other.state {
            self.state < other.state
        } else {
            self.terminal < other.terminal
        }
    }
}

impl TotalOrdered for StateNonTerminal {
    open spec fn lt_spec(self, other: Self) -> bool {
        ||| self.state < other.state
        ||| (self.state == other.state && self.nonterminal < other.nonterminal)
    }

    proof fn lemma_total(a: Self, b: Self, c: Self) {
    }

    fn lt(&self, other: &Self) -> (r: bool) {
        if self.state != other.state {
            self.state < other.state
        } else {
            self.nonterminal < other.nonterminal
        }
    }
}

/// One ACTION entry.
#[derive(Copy, Clone, Debug, PartialEq, Eq, Structural)]
pub struct ActionEntry {
    pub key: StateTerminal,
    pub action: Action,
}

/// One GOTO entry.
#[derive(Copy, Clone, Debug, PartialEq, Eq, Structural)]
pub struct GotoEntry {
    pub key: StateNonTerminal,
    pub target: usize,
}

/// The ACTION table: `(state, terminal) -> Action`, sorted by key.
pub struct ActionTable {
    pub entries: Vec<ActionEntry>,
}

/// The GOTO table: `(state, non-terminal) -> state`, sorted by key.
pub struct GoToTable {
    pub entries: Vec<GotoEntry>,
}

/// The two tables a parse is driven by.
pub struct ParsingTable {
    pub action: ActionTable,
    pub goto: GoToTable,
}

/// Keys strictly increase, so each key occurs at most once.
pub open spec fn action_keys_sorted(entries: Seq<ActionEntry>) -> bool {
    forall|p: int, q: int|
        0 <= p < q < entries.len() ==> (#[trigger] entries[p]).key.lt_spec(
            (#[trigger] entries[q]).key,
        )
}

pub open spec fn goto_keys_sorted(entries: Seq<GotoEntry>) -> bool {
    forall|p: int, q: int|
        0 <= p < q < entries.len() ==> (#[trigger] entries[p]).key.lt_spec(
            (#[trigger] entries[q]).key,
        )
}

/// The association vector read as a map.
pub open spec fn action_view(entries: Seq<ActionEntry>) -> Map<StateTerminal, Action>
    decreases entries.len(),
{
    if entries.len() == 0 {
        Map::empty()
    } else {
        action_view(entries.drop_last()).insert(entries.last().key, entries.last().action)
    }
}

pub open spec fn goto_view(entries: Seq<GotoEntry>) -> Map<StateNonTerminal, usize>
    decreases entries.len(),
{
    if entries.len() == 0 {
        Map::empty()
    } else {
        goto_view(entries.drop_last()).insert(entries.last().key, entries.last().target)
    }
}

/// On sorted entries the view is exactly the pointwise reading: its domain
/// is the key set and each key maps to its entry's action.
pub proof fn lemma_action_view_char(entries: Seq<ActionEntry>)
    requires
        action_keys_sorted(entries),
    ensures
        forall|k: StateTerminal|
            #[trigger] action_view(entries).dom().contains(k) <==> exists|i: int|
                0 <= i < entries.len() && (#[trigger] entries[i]).key == k,
        forall|i: int|
            0 <= i < entries.len() ==> action_view(entries)[(#[trigger] entries[i]).key]
                == entries[i].action,
    decreases entries.len(),
{
    if entries.len() > 0 {
        lemma_action_view_char(entries.drop_last());
        assert forall|k: StateTerminal|
            #[trigger] action_view(entries).dom().contains(k) <==> exists|i: int|
                0 <= i < entries.len() && (#[trigger] entries[i]).key == k by {
            if action_view(entries).dom().contains(k) {
                if k == entries.last().key {
                    assert(entries[entries.len() - 1].key == k);
                } else {
                    assert(action_view(entries.drop_last()).dom().contains(k));
                    let i = choose|i: int|
                        0 <= i < entries.drop_last().len() && (#[trigger] entries.drop_last()[
                            i
                        ]).key == k;
                    assert(entries[i].key == k);
                }
            }
            if exists|i: int| 0 <= i < entries.len() && (#[trigger] entries[i]).key == k {
                let i = choose|i: int|
                    0 <= i < entries.len() && (#[trigger] entries[i]).key == k;
                if i == entries.len() - 1 {
                } else {
                    assert(entries.drop_last()[i].key == k);
                    assert(action_view(entries.drop_last()).dom().contains(k));
                }
            }
        }
        assert forall|i: int|
            0 <= i < entries.len() implies action_view(entries)[(#[trigger] entries[i]).key]
            == entries[i].action by {
            if i == entries.len() - 1 {
            } else {
                assert(entries[i].key.lt_spec(entries[entries.len() - 1].key));
                StateTerminal::lemma_total(
                    entries[i].key,
                    entries[entries.len() - 1].key,
                    entries[i].key,
                );
                assert(entries[i].key != entries.last().key);
                assert(entries.drop_last()[i] == entries[i]);
            }
        }
    }
}

pub proof fn lemma_goto_view_char(entries: Seq<GotoEntry>)
    requires
        goto_keys_sorted(entries),
    ensures
        forall|k: StateNonTerminal|
            #[trigger] goto_view(entries).dom().contains(k) <==> exists|i: int|
                0 <= i < entries.len() && (#[trigger] entries[i]).key == k,
        forall|i: int|
            0 <= i < entries.len() ==> goto_view(entries)[(#[trigger] entries[i]).key]
                == entries[i].target,
    decreases entries.len(),
{
    if entries.len() > 0 {
        lemma_goto_view_char(entries.drop_last());
        assert forall|k: StateNonTerminal|
            #[trigger] goto_view(entries).dom().contains(k) <==> exists|i: int|
                0 <= i < entries.len() && (#[trigger] entries[i]).key == k by {
            if goto_view(entries).dom().contains(k) {
                if k == entries.last().key {
                    assert(entries[entries.len() - 1].key == k);
                } else {
                    assert(goto_view(entries.drop_last()).dom().contains(k));
                    let i = choose|i: int|
                        0 <= i < entries.drop_last().len() && (#[trigger] entries.drop_last()[
                            i
                        ]).key == k;
                    assert(entries[i].key == k);
                }
            }
            if exists|i: int| 0 <= i < entries.len() && (#[trigger] entries[i]).key == k {
                let i = choose|i: int|
                    0 <= i < entries.len() && (#[trigger] entries[i]).key == k;
                if i == entries.len() - 1 {
                } else {
                    assert(entries.drop_last()[i].key == k);
                    assert(goto_view(entries.drop_last()).dom().contains(k));
                }
            }
        }
        assert forall|i: int|
            0 <= i < entries.len() implies goto_view(entries)[(#[trigger] entries[i]).key]
            == entries[i].target by {
            if i == entries.len() - 1 {
            } else {
                assert(entries[i].key.lt_spec(entries[entries.len() - 1].key));
                StateNonTerminal::lemma_total(
                    entries[i].key,
                    entries[entries.len() - 1].key,
                    entries[i].key,
                );
                assert(entries[i].key != entries.last().key);
                assert(entries.drop_last()[i] == entries[i]);
            }
        }
    }
}

/// Insert or overwrite the binding of `key`, keeping keys sorted.
fn action_upsert(v: &mut Vec<ActionEntry>, key: StateTerminal, action: Action)
    requires
        action_keys_sorted(old(v)@),
    ensures
        action_keys_sorted(final(v)@),
        forall|e: ActionEntry|
            #[trigger] final(v)@.contains(e) <==> ((old(v)@.contains(e) && e.key != key) || e
                == (ActionEntry { key, action })),
{
    let ghost orig = v@;
    let mut i: usize = 0;
    while i < v.len() && v[i].key.lt(&key)
        invariant
            v@ == orig,
            i <= v@.len(),
            forall|k: int| 0 <= k < i ==> (#[trigger] v@[k]).key.lt_spec(key),
        decreases v@.len() - i,
    {
        i += 1;
    }
    let entry = ActionEntry { key, action };
    if i < v.len() {
        let same = !key.lt(&v[i].key);
        if same {
            proof {
                StateTerminal::lemma_total(v@[i as int].key, key, key);
                assert(v@[i as int].key == key);
            }
            let slot = &mut v[i];
            *slot = entry;
            proof {
                let nw = v@;
                assert(nw == orig.update(i as int, entry));
                assert forall|p: int, q: int|
                    0 <= p < q < nw.len() implies (#[trigger] nw[p]).key.lt_spec(
                    (#[trigger] nw[q]).key,
                ) by {
                    assert(orig[p].key.lt_spec(orig[q].key));
                    assert(orig[i as int].key == key);
                }
                assert forall|e: ActionEntry|
                    #[trigger] nw.contains(e) <==> ((orig.contains(e) && e.key != key) || e
                        == entry) by {
                    if nw.contains(e) {
                        let k = choose|k: int| 0 <= k < nw.len() && nw[k] == e;
                        if k != i {
                            assert(orig[k] == e);
                            assert(orig.contains(e));
                            if k < i {
                                assert(orig[k].key.lt_spec(orig[i as int].key));
                                StateTerminal::lemma_total(e.key, key, key);
                            } else {
                                assert(orig[i as int].key.lt_spec(orig[k].key));
                                StateTerminal::lemma_total(key, e.key, key);
                            }
                        }
                    }
                    if orig.contains(e) && e.key != key {
                        let k = choose|k: int| 0 <= k < orig.len() && orig[k] == e;
                        assert(k != i);
                        assert(nw[k] == e);
                        assert(nw.contains(e));
                    }
                    if e == entry {
                        assert(nw[i as int] == e);
                        assert(nw.contains(e));
                    }
                }
            }
            return ;
        }
    }
    proof {
        assert forall|k: int| i <= k < v@.len() implies key.lt_spec((#[trigger] v@[k]).key) by {
            StateTerminal::lemma_total(key, v@[i as int].key, v@[k].key);
            StateTerminal::lemma_total(v@[i as int].key, key, key);
            if k > i {
                assert(v@[i as int].key.lt_spec(v@[k].key));
                StateTerminal::lemma_total(key, v@[i as int].key, v@[k].key);
            }
        }
    }
    v.insert(i, entry);
    proof {
        let nw = v@;
        orig.insert_ensures(i as int, entry);
        assert(forall|k: int| 0 <= k < i ==> nw[k] == orig[k]);
        assert(nw[i as int] == entry);
        assert(forall|k: int| i < k < nw.len() ==> nw[k] == orig[k - 1]);
        assert forall|p: int, q: int|
            0 <= p < q < nw.len() implies (#[trigger] nw[p]).key.lt_spec(
            (#[trigger] nw[q]).key,
        ) by {
            if q < i {
                assert(orig[p].key.lt_spec(orig[q].key));
            } else if p > i {
                assert(orig[p - 1].key.lt_spec(orig[q - 1].key));
            } else if p < i && q == i {
                assert(orig[p].key.lt_spec(key));
            } else if p == i {
                assert(key.lt_spec(orig[q - 1].key));
            } else {
                assert(orig[p].key.lt_spec(orig[q - 1].key));
            }
        }
        assert forall|e: ActionEntry|
            #[trigger] nw.contains(e) <==> ((orig.contains(e) && e.key != key) || e
                == entry) by {
            if nw.contains(e) {
                let k = choose|k: int| 0 <= k < nw.len() && nw[k] == e;
                if k < i {
                    assert(orig[k] == e);
                    assert(orig.contains(e));
                    StateTerminal::lemma_total(e.key, key, key);
                } else if k > i {
                    assert(orig[k - 1] == e);
                    assert(orig.contains(e));
                    StateTerminal::lemma_total(key, e.key, key);
                }
            }
            if orig.contains(e) && e.key != key {
                let k = choose|k: int| 0 <= k < orig.len() && orig[k] == e;
                if k < i {
                    assert(nw[k] == e);
                } else {
                    assert(nw[k + 1] == e);
                }
                assert(nw.contains(e));
            }
            if e == entry {
                assert(nw[i as int] == e);
                assert(nw.contains(e));
            }
        }
    }
}

/// Insert or overwrite the binding of `key`, keeping keys sorted.
fn goto_upsert(v: &mut Vec<GotoEntry>, key: StateNonTerminal, target: usize)
    requires
        goto_keys_sorted(old(v)@),
    ensures
        goto_keys_sorted(final(v)@),
        forall|e: GotoEntry|
            #[trigger] final(v)@.contains(e) <==> ((old(v)@.contains(e) && e.key != key) || e
                == (GotoEntry { key, target })),
{
    let ghost orig = v@;
    let mut i: usize = 0;
    while i < v.len() && v[i].key.lt(&key)
        invariant
            v@ == orig,
            i <= v@.len(),
            forall|k: int| 0 <= k < i ==> (#[trigger] v@[k]).key.lt_spec(key),
        decreases v@.len() - i,
    {
        i += 1;
    }
    let entry = GotoEntry { key, target };
    if i < v.len() {
        let same = !key.lt(&v[i].key);
        if same {
            proof {
                StateNonTerminal::lemma_total(v@[i as int].key, key, key);
                assert(v@[i as int].key == key);
            }
            let slot = &mut v[i];
            *slot = entry;
            proof {
                let nw = v@;
                assert(nw == orig.update(i as int, entry));
                assert forall|p: int, q: int|
                    0 <= p < q < nw.len() implies (#[trigger] nw[p]).key.lt_spec(
                    (#[trigger] nw[q]).key,
                ) by {
                    assert(orig[p].key.lt_spec(orig[q].key));
                    assert(orig[i as int].key == key);
                }
                assert forall|e: GotoEntry|
                    #[trigger] nw.contains(e) <==> ((orig.contains(e) && e.key != key) || e
                        == entry) by {
                    if nw.contains(e) {
                        let k = choose|k: int| 0 <= k < nw.len() && nw[k] == e;
                        if k != i {
                            assert(orig[k] == e);
                            assert(orig.contains(e));
                            if k < i {
                                assert(orig[k].key.lt_spec(orig[i as int].key));
                                StateNonTerminal::lemma_total(e.key, key, key);
                            } else {
                                assert(orig[i as int].key.lt_spec(orig[k].key));
                                StateNonTerminal::lemma_total(key, e.key, key);
                            }
                        }
                    }
                    if orig.contains(e) && e.key != key {
                        let k = choose|k: int| 0 <= k < orig.len() && orig[k] == e;
                        assert(k != i);
                        assert(nw[k] == e);
                        assert(nw.contains(e));
                    }
                    if e == entry {
                        assert(nw[i as int] == e);
                        assert(nw.contains(e));
                    }
                }
            }
            return ;
        }
    }
    proof {
        assert forall|k: int| i <= k < v@.len() implies key.lt_spec((#[trigger] v@[k]).key) by {
            StateNonTerminal::lemma_total(v@[i as int].key, key, key);
            if k > i {
                assert(v@[i as int].key.lt_spec(v@[k].key));
                StateNonTerminal::lemma_total(key, v@[i as int].key, v@[k].key);
            }
        }
    }
    v.insert(i, entry);
    proof {
        let nw = v@;
        orig.insert_ensures(i as int, entry);
        assert(forall|k: int| 0 <= k < i ==> nw[k] == orig[k]);
        assert(nw[i as int] == entry);
        assert(forall|k: int| i < k < nw.len() ==> nw[k] == orig[k - 1]);
        assert forall|p: int, q: int|
            0 <= p < q < nw.len() implies (#[trigger] nw[p]).key.lt_spec(
            (#[trigger] nw[q]).key,
        ) by {
            if q < i {
                assert(orig[p].key.lt_spec(orig[q].key));
            } else if p > i {
                assert(orig[p - 1].key.lt_spec(orig[q - 1].key));
            } else if p < i && q == i {
                assert(orig[p].key.lt_spec(key));
            } else if p == i {
                assert(key.lt_spec(orig[q - 1].key));
            } else {
                assert(orig[p].key.lt_spec(orig[q - 1].key));
            }
        }
        assert forall|e: GotoEntry|
            #[trigger] nw.contains(e) <==> ((orig.contains(e) && e.key != key) || e
                == entry) by {
            if nw.contains(e) {
                let k = choose|k: int| 0 <= k < nw.len() && nw[k] == e;
                if k < i {
                    assert(orig[k] == e);
                    assert(orig.contains(e));
                    StateNonTerminal::lemma_total(e.key, key, key);
                } else if k > i {
                    assert(orig[k - 1] == e);
                    assert(orig.contains(e));
                    StateNonTerminal::lemma_total(key, e.key, key);
                }
            }
            if orig.contains(e) && e.key != key {
                let k = choose|k: int| 0 <= k < orig.len() && orig[k] == e;
                if k < i {
                    assert(nw[k] == e);
                } else {
                    assert(nw[k + 1] == e);
                }
                assert(nw.contains(e));
            }
            if e == entry {
                assert(nw[i as int] == e);
                assert(nw.contains(e));
            }
        }
    }
}

/// Sorted entries with the same pointwise contents are identical, so the
/// map view pins the representation.
pub proof fn lemma_action_entries_unique(a: Seq<ActionEntry>, b: Seq<ActionEntry>)
    requires
        action_keys_sorted(a),
        action_keys_sorted(b),
        forall|e: ActionEntry| a.contains(e) <==> b.contains(e),
    ensures
        a == b,
{
    assert forall|p: int, q: int| 0 <= p < q < a.len() implies (#[trigger] a[p]).lt_spec(
        #[trigger] a[q],
    ) by {
        assert(a[p].key.lt_spec(a[q].key));
    }
    assert forall|p: int, q: int| 0 <= p < q < b.len() implies (#[trigger] b[p]).lt_spec(
        #[trigger] b[q],
    ) by {
        assert(b[p].key.lt_spec(b[q].key));
    }
    lemma_sorted_unique(a, b);
}

pub proof fn lemma_goto_entries_unique(a: Seq<GotoEntry>, b: Seq<GotoEntry>)
    requires
        goto_keys_sorted(a),
        goto_keys_sorted(b),
        forall|e: GotoEntry| a.contains(e) <==> b.contains(e),
    ensures
        a == b,
{
    assert forall|p: int, q: int| 0 <= p < q < a.len() implies (#[trigger] a[p]).lt_spec(
        #[trigger] a[q],
    ) by {
        assert(a[p].key.lt_spec(a[q].key));
    }
    assert forall|p: int, q: int| 0 <= p < q < b.len() implies (#[trigger] b[p]).lt_spec(
        #[trigger] b[q],
    ) by {
        assert(b[p].key.lt_spec(b[q].key));
    }
    lemma_sorted_unique(a, b);
}

impl TotalOrdered for ActionEntry {
    open spec fn lt_spec(self, other: Self) -> bool {
        ||| self.key.lt_spec(other.key)
        ||| (self.key == other.key && action_lt(self.action, other.action))
    }

    proof fn lemma_total(a: Self, b: Self, c: Self) {
        StateTerminal::lemma_total(a.key, b.key, c.key);
        StateTerminal::lemma_total(b.key, a.key, a.key);
        StateTerminal::lemma_total(b.key, c.key, a.key);
    }

    fn lt(&self, other: &Self) -> (r: bool) {
        let kl = self.key.lt(&other.key);
        if kl {
            true
        } else if other.key.lt(&self.key) {
            false
        } else {
            proof {
                StateTerminal::lemma_total(self.key, other.key, other.key);
            }
            action_lt_exec(&self.action, &other.action)
        }
    }
}

impl TotalOrdered for GotoEntry {
    open spec fn lt_spec(self, other: Self) -> bool {
        ||| self.key.lt_spec(other.key)
        ||| (self.key == other.key && self.target < other.target)
    }

    proof fn lemma_total(a: Self, b: Self, c: Self) {
        StateNonTerminal::lemma_total(a.key, b.key, c.key);
        StateNonTerminal::lemma_total(b.key, a.key, a.key);
        StateNonTerminal::lemma_total(b.key, c.key, a.key);
    }

    fn lt(&self, other: &Self) -> (r: bool) {
        let kl = self.key.lt(&other.key);
        if kl {
            true
        } else if other.key.lt(&self.key) {
            false
        } else {
            proof {
                StateNonTerminal::lemma_total(self.key, other.key, other.key);
            }
            self.target < other.target
        }
    }
}

/// An arbitrary total order on actions, only so that entries themselves are
/// totally ordered.
pub open spec fn action_lt(a: Action, b: Action) -> bool {
    action_rank(a) < action_rank(b) || (action_rank(a) == action_rank(b) && action_payload(a)
        < action_payload(b))
}

pub open spec fn action_rank(a: Action) -> int {
    match a {
        Action::Shift(_) => 0,
        Action::Reduce(_) => 1,
        Action::Accept => 2,
    }
}

pub open spec fn action_payload(a: Action) -> int {
    match a {
        Action::Shift(n) => n as int,
        Action::Reduce(n) => n as int,
        Action::Accept => 0,
    }
}

fn action_lt_exec(a: &Action, b: &Action) -> (r: bool)
    ensures
        r == action_lt(*a, *b),
{
    match (a, b) {
        (Action::Shift(x), Action::Shift(y)) => x < y,
        (Action::Shift(_), _) => true,
        (Action::Reduce(_), Action::Shift(_)) => false,
        (Action::Reduce(x), Action::Reduce(y)) => x < y,
        (Action::Reduce(_), Action::Accept) => true,
        (Action::Accept, Action::Accept) => false,
        (Action::Accept, _) => false,
    }
}

// ---------------------------------------------------------------------
// Table generation: a fold over the automaton, states in increasing
// order, transitions before end-of-rule items within a state.  Writes
// overwrite, so on a conflicting grammar the entry computed last wins;
// the fold specification makes that resolution explicit and
// deterministic.
// ---------------------------------------------------------------------

/// Record one transition: a shift for a terminal edge, a goto for a
/// non-terminal edge.
pub open spec fn apply_transition(
    state: usize,
    tr: Transition,
    am: Map<StateTerminal, Action>,
    gm: Map<StateNonTerminal, usize>,
) -> (Map<StateTerminal, Action>, Map<StateNonTerminal, usize>) {
    match tr.symbol {
        TerminalOrNonTerminal::Terminal(t) => (
            am.insert(StateTerminal { state, terminal: t }, Action::Shift(tr.target)),
            gm,
        ),
        TerminalOrNonTerminal::NonTerminal(nt) => (
            am,
            gm.insert(StateNonTerminal { state, nonterminal: nt }, tr.target),
        ),
    }
}

/// Record one item whose dot is at the end: accepting for the augmented
/// start rule under end-of-input, reducing otherwise.
pub open spec fn apply_item(
    rules: Seq<Rule>,
    state: usize,
    it: LR1Item,
    am: Map<StateTerminal, Action>,
) -> Map<StateTerminal, Action> {
    if item_next_symbol(rules, it) is None {
        if it.lookahead == EOF_TERMINAL && it.index == 0 {
            am.insert(StateTerminal { state, terminal: EOF_TERMINAL }, Action::Accept)
        } else {
            am.insert(
                StateTerminal { state, terminal: it.lookahead },
                Action::Reduce(it.index),
            )
        }
    } else {
        am
    }
}

pub open spec fn trans_fold(
    state: usize,
    ts: Seq<Transition>,
    j: int,
    am: Map<StateTerminal, Action>,
    gm: Map<StateNonTerminal, usize>,
) -> (Map<StateTerminal, Action>, Map<StateNonTerminal, usize>)
    decreases ts.len() - j,
{
    if j < 0 || j >= ts.len() {
        (am, gm)
    } else {
        let stepped = apply_transition(state, ts[j], am, gm);
        trans_fold(state, ts, j + 1, stepped.0, stepped.1)
    }
}

pub open spec fn items_fold(
    rules: Seq<Rule>,
    state: usize,
    items: Seq<LR1Item>,
    k: int,
    am: Map<StateTerminal, Action>,
) -> Map<StateTerminal, Action>
    decreases items.len() - k,
{
    if k < 0 || k >= items.len() {
        am
    } else {
        items_fold(rules, state, items, k + 1, apply_item(rules, state, items[k], am))
    }
}

pub open spec fn states_fold(
    rules: Seq<Rule>,
    states: Seq<LR1State>,
    i: int,
    am: Map<StateTerminal, Action>,
    gm: Map<StateNonTerminal, usize>,
) -> (Map<StateTerminal, Action>, Map<StateNonTerminal, usize>)
    decreases states.len() - i,
{
    if i < 0 || i >= states.len() {
        (am, gm)
    } else {
        let after_ts = trans_fold(i as usize, states[i].transitions@, 0, am, gm);
        let after_items = items_fold(rules, i as usize, states[i].items@, 0, after_ts.0);
        states_fold(rules, states, i + 1, after_items, after_ts.1)
    }
}

/// The ACTION and GOTO maps an automaton denotes.
pub open spec fn table_spec(rules: Seq<Rule>, states: Seq<LR1State>) -> (
    Map<StateTerminal, Action>,
    Map<StateNonTerminal, usize>,
) {
    states_fold(rules, states, 0, Map::empty(), Map::empty())
}

/// An upsert on sorted entries is an insert on the map view.
proof fn lemma_action_upsert_view(
    old_e: Seq<ActionEntry>,
    new_e: Seq<ActionEntry>,
    key: StateTerminal,
    action: Action,
)
    requires
        action_keys_sorted(old_e),
        action_keys_sorted(new_e),
        forall|e: ActionEntry|
            #[trigger] new_e.contains(e) <==> ((old_e.contains(e) && e.key != key) || e
                == (ActionEntry { key, action })),
    ensures
        action_view(new_e) == action_view(old_e).insert(key, action),
{
    lemma_action_view_char(old_e);
    lemma_action_view_char(new_e);
    let vn = action_view(new_e);
    let vo = action_view(old_e).insert(key, action);
    assert forall|k2: StateTerminal| vn.dom().contains(k2) <==> vo.dom().contains(k2) by {
        if vn.dom().contains(k2) {
            let i = choose|i: int| 0 <= i < new_e.len() && (#[trigger] new_e[i]).key == k2;
            assert(new_e.contains(new_e[i]));
            if new_e[i] == (ActionEntry { key, action }) {
            } else {
                assert(old_e.contains(new_e[i]));
                let j = choose|j: int| 0 <= j < old_e.len() && old_e[j] == new_e[i];
                assert(action_view(old_e).dom().contains(k2));
            }
        }
        if vo.dom().contains(k2) {
            if k2 == key {
                assert(new_e.contains(ActionEntry { key, action }));
                let i = choose|i: int| 0 <= i < new_e.len() && new_e[i] == (ActionEntry { key, action });
                assert(new_e[i].key == k2);
                assert(vn.dom().contains(k2));
            } else {
                assert(action_view(old_e).dom().contains(k2));
                let i = choose|i: int| 0 <= i < old_e.len() && (#[trigger] old_e[i]).key == k2;
                assert(old_e.contains(old_e[i]));
                assert(new_e.contains(old_e[i]));
                let j = choose|j: int| 0 <= j < new_e.len() && new_e[j] == old_e[i];
                assert(new_e[j].key == k2);
                assert(vn.dom().contains(k2));
            }
        }
    }
    assert forall|k2: StateTerminal| #[trigger]
        vn.dom().contains(k2) implies vn[k2] == vo[k2] by {
        let i = choose|i: int| 0 <= i < new_e.len() && (#[trigger] new_e[i]).key == k2;
        assert(vn[new_e[i].key] == new_e[i].action);
        assert(new_e.contains(new_e[i]));
        if k2 == key {
            // the binding for `key` must be the fresh entry
            if new_e[i] != (ActionEntry { key, action }) {
                assert(old_e.contains(new_e[i]) && new_e[i].key != key);
                assert(false);
            }
        } else {
            assert(new_e[i] != (ActionEntry { key, action }));
            assert(old_e.contains(new_e[i]));
            let j = choose|j: int| 0 <= j < old_e.len() && old_e[j] == new_e[i];
            assert(action_view(old_e)[old_e[j].key] == old_e[j].action);
        }
    }
    assert(vn =~= vo);
}

proof fn lemma_goto_upsert_view(
    old_e: Seq<GotoEntry>,
    new_e: Seq<GotoEntry>,
    key: StateNonTerminal,
    target: usize,
)
    requires
        goto_keys_sorted(old_e),
        goto_keys_sorted(new_e),
        forall|e: GotoEntry|
            #[trigger] new_e.contains(e) <==> ((old_e.contains(e) && e.key != key) || e
                == (GotoEntry { key, target })),
    ensures
        goto_view(new_e) == goto_view(old_e).insert(key, target),
{
    lemma_goto_view_char(old_e);
    lemma_goto_view_char(new_e);
    let vn = goto_view(new_e);
    let vo = goto_view(old_e).insert(key, target);
    assert forall|k2: StateNonTerminal| vn.dom().contains(k2) <==> vo.dom().contains(k2) by {
        if vn.dom().contains(k2) {
            let i = choose|i: int| 0 <= i < new_e.len() && (#[trigger] new_e[i]).key == k2;
            assert(new_e.contains(new_e[i]));
            if new_e[i] == (GotoEntry { key, target }) {
            } else {
                assert(old_e.contains(new_e[i]));
                let j = choose|j: int| 0 <= j < old_e.len() && old_e[j] == new_e[i];
                assert(goto_view(old_e).dom().contains(k2));
            }
        }
        if vo.dom().contains(k2) {
            if k2 == key {
                assert(new_e.contains(GotoEntry { key, target }));
                let i = choose|i: int| 0 <= i < new_e.len() && new_e[i] == (GotoEntry { key, target });
                assert(new_e[i].key == k2);
                assert(vn.dom().contains(k2));
            } else {
                assert(goto_view(old_e).dom().contains(k2));
                let i = choose|i: int| 0 <= i < old_e.len() && (#[trigger] old_e[i]).key == k2;
                assert(old_e.contains(old_e[i]));
                assert(new_e.contains(old_e[i]));
                let j = choose|j: int| 0 <= j < new_e.len() && new_e[j] == old_e[i];
                assert(new_e[j].key == k2);
                assert(vn.dom().contains(k2));
            }
        }
    }
    assert forall|k2: StateNonTerminal| #[trigger]
        vn.dom().contains(k2) implies vn[k2] == vo[k2] by {
        let i = choose|i: int| 0 <= i < new_e.len() && (#[trigger] new_e[i]).key == k2;
        assert(vn[new_e[i].key] == new_e[i].target);
        assert(new_e.contains(new_e[i]));
        if k2 == key {
            if new_e[i] != (GotoEntry { key, target }) {
                assert(old_e.contains(new_e[i]) && new_e[i].key != key);
                assert(false);
            }
        } else {
            assert(new_e[i] != (GotoEntry { key, target }));
            assert(old_e.contains(new_e[i]));
            let j = choose|j: int| 0 <= j < old_e.len() && old_e[j] == new_e[i];
            assert(goto_view(old_e)[old_e[j].key] == old_e[j].target);
        }
    }
    assert(vn =~= vo);
}

/// Derive the ACTION and GOTO tables from a well-formed automaton.  The
/// result equals the fold specification, so it is a function of the
/// automaton alone.
pub fn generate_parsing_table_from(rules: &Vec<Rule>, states: &Vec<LR1State>) -> (r: ParsingTable)
    requires
        machine_wf(rules@, states@),
    ensures
        action_keys_sorted(r.action.entries@),
        goto_keys_sorted(r.goto.entries@),
        action_view(r.action.entries@) == table_spec(rules@, states@).0,
        goto_view(r.goto.entries@) == table_spec(rules@, states@).1,
{
    let mut am: Vec<ActionEntry> = Vec::new();
    let mut gm: Vec<GotoEntry> = Vec::new();
    let mut i: usize = 0;
    while i < states.len()
        invariant
            machine_wf(rules@, states@),
            i <= states@.len(),
            action_keys_sorted(am@),
            goto_keys_sorted(gm@),
            states_fold(rules@, states@, i as int, action_view(am@), goto_view(gm@))
                == table_spec(rules@, states@),
        decreases states@.len() - i,
    {
        let ghost am_i = action_view(am@);
        let ghost gm_i = goto_view(gm@);
        let ghost i0 = i as int;
        proof {
            assert(states@[i0].state_number == i0);
        }
        let mut j: usize = 0;
        while j < states[i].transitions.len()
            invariant
                machine_wf(rules@, states@),
                i < states@.len(),
                i0 == i as int,
                j <= states@[i0].transitions@.len(),
                action_keys_sorted(am@),
                goto_keys_sorted(gm@),
                trans_fold(
                    i,
                    states@[i0].transitions@,
                    j as int,
                    action_view(am@),
                    goto_view(gm@),
                ) == trans_fold(i, states@[i0].transitions@, 0, am_i, gm_i),
            decreases states@[i0].transitions@.len() - j,
        {
            let ghost j0 = j as int;
            let ghost am_b = action_view(am@);
            let ghost gm_b = goto_view(gm@);
            let tr = states[i].transitions[j];
            match tr.symbol {
                TerminalOrNonTerminal::Terminal(t) => {
                    let ghost am_old = am@;
                    action_upsert(&mut am, StateTerminal { state: i, terminal: t }, Action::Shift(tr.target));
                    proof {
                        lemma_action_upsert_view(
                            am_old,
                            am@,
                            StateTerminal { state: i, terminal: t },
                            Action::Shift(tr.target),
                        );
                    }
                },
                TerminalOrNonTerminal::NonTerminal(nt) => {
                    let ghost gm_old = gm@;
                    goto_upsert(&mut gm, StateNonTerminal { state: i, nonterminal: nt }, tr.target);
                    proof {
                        lemma_goto_upsert_view(
                            gm_old,
                            gm@,
                            StateNonTerminal { state: i, nonterminal: nt },
                            tr.target,
                        );
                    }
                },
            }
            j += 1;
            proof {
                assert(apply_transition(i, states@[i0].transitions@[j0], am_b, gm_b) == (
                    action_view(am@),
                    goto_view(gm@),
                ));
                assert(trans_fold(i, states@[i0].transitions@, j0, am_b, gm_b) == trans_fold(
                    i,
                    states@[i0].transitions@,
                    j0 + 1,
                    action_view(am@),
                    goto_view(gm@),
                ));
                assert(trans_fold(
                    i,
                    states@[i0].transitions@,
                    j as int,
                    action_view(am@),
                    goto_view(gm@),
                ) == trans_fold(i, states@[i0].transitions@, 0, am_i, gm_i));
            }
        }
        let ghost am_t = action_view(am@);
        let ghost gm_t = goto_view(gm@);
        proof {
            assert(trans_fold(i, states@[i0].transitions@, states@[i0].transitions@.len() as int, am_t, gm_t)
                == (am_t, gm_t));
            assert((am_t, gm_t) == trans_fold(i, states@[i0].transitions@, 0, am_i, gm_i));
        }
        let mut k: usize = 0;
        while k < states[i].items.len()
            invariant
                machine_wf(rules@, states@),
                i < states@.len(),
                i0 == i as int,
                k <= states@[i0].items@.len(),
                action_keys_sorted(am@),
                goto_keys_sorted(gm@),
                goto_view(gm@) == gm_t,
                items_fold(rules@, i, states@[i0].items@, k as int, action_view(am@))
                    == items_fold(rules@, i, states@[i0].items@, 0, am_t),
            decreases states@[i0].items@.len() - k,
        {
            let ghost k0 = k as int;
            let ghost am_b = action_view(am@);
            let it = states[i].items[k];
            proof {
                assert(states@[i0].items@.contains(it));
            }
            let next = it.next_symbol(rules);
            if next.is_none() {
                let ghost am_old = am@;
                if it.lookahead == EOF_TERMINAL && it.index == 0 {
                    action_upsert(
                        &mut am,
                        StateTerminal { state: i, terminal: EOF_TERMINAL },
                        Action::Accept,
                    );
                    proof {
                        lemma_action_upsert_view(
                            am_old,
                            am@,
                            StateTerminal { state: i, terminal: EOF_TERMINAL },
                            Action::Accept,
                        );
                    }
                } else {
                    action_upsert(
                        &mut am,
                        StateTerminal { state: i, terminal: it.lookahead },
                        Action::Reduce(it.index),
                    );
                    proof {
                        lemma_action_upsert_view(
                            am_old,
                            am@,
                            StateTerminal { state: i, terminal: it.lookahead },
                            Action::Reduce(it.index),
                        );
                    }
                }
            }
            k += 1;
            proof {
                assert(apply_item(rules@, i, states@[i0].items@[k0], am_b) == action_view(am@));
                assert(items_fold(rules@, i, states@[i0].items@, k0, am_b) == items_fold(
                    rules@,
                    i,
                    states@[i0].items@,
                    k0 + 1,
                    action_view(am@),
                ));
                assert(items_fold(rules@, i, states@[i0].items@, k as int, action_view(am@))
                    == items_fold(rules@, i, states@[i0].items@, 0, am_t));
            }
        }
        i += 1;
        proof {
            assert(items_fold(
                rules@,
                (i - 1) as usize,
                states@[i0].items@,
                states@[i0].items@.len() as int,
                action_view(am@),
            ) == action_view(am@));
            assert(states_fold(rules@, states@, i0, am_i, gm_i) == states_fold(
                rules@,
                states@,
                i0 + 1,
                action_view(am@),
                goto_view(gm@),
            ));
            assert(states_fold(rules@, states@, i as int, action_view(am@), goto_view(gm@))
                == table_spec(rules@, states@));
        }
    }
    proof {
        assert(states_fold(rules@, states@, states@.len() as int, action_view(am@), goto_view(gm@))
            == (action_view(am@), goto_view(gm@)));
    }
    ParsingTable { action: ActionTable { entries: am }, goto: GoToTable { entries: gm } }
}

/// Running table generation twice over the same automaton yields identical
/// tables, entry for entry: the tables are a function of the automaton.
pub proof fn lemma_table_generation_deterministic(
    rules: Seq<Rule>,
    states: Seq<LR1State>,
    t1: ParsingTable,
    t2: ParsingTable,
)
    requires
        action_keys_sorted(t1.action.entries@),
        goto_keys_sorted(t1.goto.entries@),
        action_view(t1.action.entries@) == table_spec(rules, states).0,
        goto_view(t1.goto.entries@) == table_spec(rules, states).1,
        action_keys_sorted(t2.action.entries@),
        goto_keys_sorted(t2.goto.entries@),
        action_view(t2.action.entries@) == table_spec(rules, states).0,
        goto_view(t2.goto.entries@) == table_spec(rules, states).1,
    ensures
        t1.action.entries@ == t2.action.entries@,
        t1.goto.entries@ == t2.goto.entries@,
{
    lemma_action_view_determines(t1.action.entries@, t2.action.entries@);
    lemma_goto_view_determines(t1.goto.entries@, t2.goto.entries@);
}

/// The table fold reads only the states' item and transition contents, so
/// two automata with the same ghost image denote the same tables.
proof fn lemma_states_fold_of_views(
    rules: Seq<Rule>,
    s1: Seq<LR1State>,
    s2: Seq<LR1State>,
    i: int,
    am: Map<StateTerminal, Action>,
    gm: Map<StateNonTerminal, usize>,
)
    requires
        gview(s1) == gview(s2),
    ensures
        states_fold(rules, s1, i, am, gm) == states_fold(rules, s2, i, am, gm),
    decreases s1.len() - i,
{
    assert(gview(s1).len() == s1.len());
    assert(gview(s2).len() == s2.len());
    if 0 <= i < s1.len() {
        assert(gview(s1)[i] == gview(s2)[i]);
        assert(gview(s1)[i] == crate::parser_types::lr1state::gstate_of(s1[i]));
        assert(gview(s2)[i] == crate::parser_types::lr1state::gstate_of(s2[i]));
        assert(s1[i].transitions@ == s2[i].transitions@);
        assert(s1[i].items@ == s2[i].items@);
        let after_ts = trans_fold(i as usize, s1[i].transitions@, 0, am, gm);
        let after_items = items_fold(rules, i as usize, s1[i].items@, 0, after_ts.0);
        lemma_states_fold_of_views(rules, s1, s2, i + 1, after_items, after_ts.1);
    }
}

/// The whole pipeline is deterministic: two full runs, each building its
/// own automaton and deriving its own tables, produce identical tables,
/// entry for entry, and automata of the same size with the same contents.
pub proof fn lemma_pipeline_deterministic(
    rules: Seq<Rule>,
    s1: Seq<LR1State>,
    s2: Seq<LR1State>,
    t1: ParsingTable,
    t2: ParsingTable,
)
    requires
        build_result(rules) == Some(gview(s1)),
        build_result(rules) == Some(gview(s2)),
        action_keys_sorted(t1.action.entries@),
        goto_keys_sorted(t1.goto.entries@),
        action_view(t1.action.entries@) == table_spec(rules, s1).0,
        goto_view(t1.goto.entries@) == table_spec(rules, s1).1,
        action_keys_sorted(t2.action.entries@),
        goto_keys_sorted(t2.goto.entries@),
        action_view(t2.action.entries@) == table_spec(rules, s2).0,
        goto_view(t2.goto.entries@) == table_spec(rules, s2).1,
    ensures
        s1.len() == s2.len(),
        t1.action.entries@ == t2.action.entries@,
        t1.goto.entries@ == t2.goto.entries@,
{
    lemma_construction_deterministic(rules, s1, s2);
    lemma_states_fold_of_views(rules, s1, s2, 0, Map::empty(), Map::empty());
    lemma_table_generation_deterministic(rules, s1, t1, t2);
}

/// Sorted entries are pinned by their map view.
proof fn lemma_action_view_determines(a: Seq<ActionEntry>, b: Seq<ActionEntry>)
    requires
        action_keys_sorted(a),
        action_keys_sorted(b),
        action_view(a) == action_view(b),
    ensures
        a == b,
{
    lemma_action_view_char(a);
    lemma_action_view_char(b);
    assert forall|e: ActionEntry| a.contains(e) <==> b.contains(e) by {
        if a.contains(e) {
            let i = choose|i: int| 0 <= i < a.len() && a[i] == e;
            assert(a[i].key == e.key);
            assert(action_view(a).dom().contains(e.key));
            assert(action_view(a)[e.key] == e.action);
            assert(action_view(b).dom().contains(e.key));
            let j = choose|j: int| 0 <= j < b.len() && (#[trigger] b[j]).key == e.key;
            assert(action_view(b)[b[j].key] == b[j].action);
            assert(b[j] == e);
            assert(b.contains(e));
        }
        if b.contains(e) {
            let i = choose|i: int| 0 <= i < b.len() && b[i] == e;
            assert(b[i].key == e.key);
            assert(action_view(b).dom().contains(e.key));
            assert(action_view(b)[e.key] == e.action);
            assert(action_view(a).dom().contains(e.key));
            let j = choose|j: int| 0 <= j < a.len() && (#[trigger] a[j]).key == e.key;
            assert(action_view(a)[a[j].key] == a[j].action);
            assert(a[j] == e);
            assert(a.contains(e));
        }
    }
    lemma_action_entries_unique(a, b);
}

proof fn lemma_goto_view_determines(a: Seq<GotoEntry>, b: Seq<GotoEntry>)
    requires
        goto_keys_sorted(a),
        goto_keys_sorted(b),
        goto_view(a) == goto_view(b),
    ensures
        a == b,
{
    lemma_goto_view_char(a);
    lemma_goto_view_char(b);
    assert forall|e: GotoEntry| a.contains(e) <==> b.contains(e) by {
        if a.contains(e) {
            let i = choose|i: int| 0 <= i < a.len() && a[i] == e;
            assert(a[i].key == e.key);
            assert(goto_view(a).dom().contains(e.key));
            assert(goto_view(a)[e.key] == e.target);
            assert(goto_view(b).dom().contains(e.key));
            let j = choose|j: int| 0 <= j < b.len() && (#[trigger] b[j]).key == e.key;
            assert(goto_view(b)[b[j].key] == b[j].target);
            assert(b[j] == e);
            assert(b.contains(e));
        }
        if b.contains(e) {
            let i = choose|i: int| 0 <= i < b.len() && b[i] == e;
            assert(b[i].key == e.key);
            assert(goto_view(b).dom().contains(e.key));
            assert(goto_view(b)[e.key] == e.target);
            assert(goto_view(a).dom().contains(e.key));
            let j = choose|j: int| 0 <= j < a.len() && (#[trigger] a[j]).key == e.key;
            assert(goto_view(a)[a[j].key] == a[j].target);
            assert(a[j] == e);
            assert(a.contains(e));
        }
    }
    lemma_goto_entries_unique(a, b);
}


// ---------------------------------------------------------------------
// The driver loop: a shift-reduce parse over the tables, specified as a
// step function on (state stack, symbol stack, remaining input).
// ---------------------------------------------------------------------

/// How a parse ended.  A missing ACTION entry means the input is rejected;
/// a missing GOTO entry (or a stack too short to pop a rule's right-hand
/// side) means the tables themselves are inconsistent; the step limit is an
/// iteration budget that a table built by this crate never reaches on
/// accepted input of sane size.
#[derive(Copy, Clone, Debug, PartialEq, Eq, Structural)]
pub enum ParseOutcome {
    Accepted,
    MissingAction,
    MissingGoto,
    StepLimit,
}

/// The final configuration of a parse: its outcome and both stacks as the
/// driver left them.
pub struct ParseRun {
    pub outcome: ParseOutcome,
    pub state_stack: Vec<usize>,
    pub symbol_stack: Vec<TerminalOrNonTerminal>,
}

/// One shift-reduce run, as a function: from a configuration to the final
/// outcome and stacks.  Shift pushes the target state and the terminal and
/// consumes one token; reduce pops one rule's worth off both stacks and
/// follows the GOTO edge for the rule's left-hand side; accept stops.
pub open spec fn drive(
    rules: Seq<Rule>,
    am: Map<StateTerminal, Action>,
    gm: Map<StateNonTerminal, usize>,
    st_stack: Seq<usize>,
    sym_stack: Seq<TerminalOrNonTerminal>,
    input: Seq<u64>,
    pos: int,
    fuel: nat,
) -> (ParseOutcome, Seq<usize>, Seq<TerminalOrNonTerminal>)
    decreases fuel,
{
    if fuel == 0 {
        (ParseOutcome::StepLimit, st_stack, sym_stack)
    } else if st_stack.len() == 0 || pos < 0 || pos >= input.len() {
        (ParseOutcome::MissingAction, st_stack, sym_stack)
    } else {
        let key = StateTerminal { state: st_stack.last(), terminal: input[pos] };
        if !am.dom().contains(key) {
            (ParseOutcome::MissingAction, st_stack, sym_stack)
        } else {
            match am[key] {
                Action::Shift(n) => drive(
                    rules,
                    am,
                    gm,
                    st_stack.push(n),
                    sym_stack.push(TerminalOrNonTerminal::Terminal(input[pos])),
                    input,
                    pos + 1,
                    (fuel - 1) as nat,
                ),
                Action::Reduce(r) => {
                    if r >= rules.len() {
                        (ParseOutcome::MissingGoto, st_stack, sym_stack)
                    } else {
                        let rl = rules[r as int].rhs@.len() as int;
                        if st_stack.len() < rl + 1 || sym_stack.len() < rl {
                            (ParseOutcome::MissingGoto, st_stack, sym_stack)
                        } else {
                            let st2 = st_stack.subrange(0, st_stack.len() - rl);
                            let sym2 = sym_stack.subrange(0, sym_stack.len() - rl);
                            let gkey = StateNonTerminal {
                                state: st2.last(),
                                nonterminal: rules[r as int].lhs,
                            };
                            if !gm.dom().contains(gkey) {
                                (ParseOutcome::MissingGoto, st2, sym2)
                            } else {
                                drive(
                                    rules,
                                    am,
                                    gm,
                                    st2.push(gm[gkey]),
                                    sym2.push(
                                        TerminalOrNonTerminal::NonTerminal(rules[r as int].lhs),
                                    ),
                                    input,
                                    pos,
                                    (fuel - 1) as nat,
                                )
                            }
                        }
                    }
                },
                Action::Accept => (ParseOutcome::Accepted, st_stack, sym_stack),
            }
        }
    }
}

/// The budget the executable driver runs with.
pub open spec fn parse_fuel() -> nat {
    usize::MAX as nat
}

/// The driver keeps one more state than symbols on its stacks: shifts and
/// gotos push one of each, reduces pop equally from both.
pub proof fn lemma_drive_stack_discipline(
    rules: Seq<Rule>,
    am: Map<StateTerminal, Action>,
    gm: Map<StateNonTerminal, usize>,
    st_stack: Seq<usize>,
    sym_stack: Seq<TerminalOrNonTerminal>,
    input: Seq<u64>,
    pos: int,
    fuel: nat,
)
    requires
        st_stack.len() == sym_stack.len() + 1,
    ensures
        ({
            let d = drive(rules, am, gm, st_stack, sym_stack, input, pos, fuel);
            d.1.len() == d.2.len() + 1
        }),
    decreases fuel,
{
    if fuel == 0 || st_stack.len() == 0 || pos < 0 || pos >= input.len() {
    } else {
        let key = StateTerminal { state: st_stack.last(), terminal: input[pos] };
        if am.dom().contains(key) {
            match am[key] {
                Action::Shift(n) => {
                    lemma_drive_stack_discipline(
                        rules,
                        am,
                        gm,
                        st_stack.push(n),
                        sym_stack.push(TerminalOrNonTerminal::Terminal(input[pos])),
                        input,
                        pos + 1,
                        (fuel - 1) as nat,
                    );
                },
                Action::Reduce(r) => {
                    if r < rules.len() {
                        let rl = rules[r as int].rhs@.len() as int;
                        if st_stack.len() >= rl + 1 && sym_stack.len() >= rl {
                            let st2 = st_stack.subrange(0, st_stack.len() - rl);
                            let sym2 = sym_stack.subrange(0, sym_stack.len() - rl);
                            let gkey = StateNonTerminal {
                                state: st2.last(),
                                nonterminal: rules[r as int].lhs,
                            };
                            if gm.dom().contains(gkey) {
                                lemma_drive_stack_discipline(
                                    rules,
                                    am,
                                    gm,
                                    st2.push(gm[gkey]),
                                    sym2.push(
                                        TerminalOrNonTerminal::NonTerminal(rules[r as int].lhs),
                                    ),
                                    input,
                                    pos,
                                    (fuel - 1) as nat,
                                );
                            }
                        }
                    }
                },
                Action::Accept => {},
            }
        }
    }
}

impl ActionTable {
    /// Look the action for `(state, terminal)` up.
    pub fn get(&self, state: usize, terminal: u64) -> (r: Option<Action>)
        requires
            action_keys_sorted(self.entries@),
        ensures
            match r {
                Some(a) => action_view(self.entries@).dom().contains(
                    StateTerminal { state, terminal },
                ) && action_view(self.entries@)[StateTerminal { state, terminal }] == a,
                None => !action_view(self.entries@).dom().contains(
                    StateTerminal { state, terminal },
                ),
            },
    {
        proof {
            lemma_action_view_char(self.entries@);
        }
        let mut i: usize = 0;
        while i < self.entries.len()
            invariant
                action_keys_sorted(self.entries@),
                i <= self.entries@.len(),
                forall|q: int|
                    0 <= q < i ==> (#[trigger] self.entries@[q]).key != (StateTerminal {
                        state,
                        terminal,
                    }),
            decreases self.entries@.len() - i,
        {
            let e = self.entries[i];
            if e.key.state == state && e.key.terminal == terminal {
                proof {
                    assert(self.entries@[i as int].key == (StateTerminal { state, terminal }));
                    lemma_action_view_char(self.entries@);
                }
                return Some(e.action);
            }
            i += 1;
        }
        proof {
            lemma_action_view_char(self.entries@);
        }
        None
    }
}

impl GoToTable {
    /// Look the goto target for `(state, non-terminal)` up.
    pub fn get(&self, state: usize, nonterminal: u64) -> (r: Option<usize>)
        requires
            goto_keys_sorted(self.entries@),
        ensures
            match r {
                Some(g) => goto_view(self.entries@).dom().contains(
                    StateNonTerminal { state, nonterminal },
                ) && goto_view(self.entries@)[StateNonTerminal { state, nonterminal }] == g,
                None => !goto_view(self.entries@).dom().contains(
                    StateNonTerminal { state, nonterminal },
                ),
            },
    {
        proof {
            lemma_goto_view_char(self.entries@);
        }
        let mut i: usize = 0;
        while i < self.entries.len()
            invariant
                goto_keys_sorted(self.entries@),
                i <= self.entries@.len(),
                forall|q: int|
                    0 <= q < i ==> (#[trigger] self.entries@[q]).key != (StateNonTerminal {
                        state,
                        nonterminal,
                    }),
            decreases self.entries@.len() - i,
        {
            let e = self.entries[i];
            if e.key.state == state && e.key.nonterminal == nonterminal {
                proof {
                    assert(self.entries@[i as int].key == (StateNonTerminal {
                        state,
                        nonterminal,
                    }));
                    lemma_goto_view_char(self.entries@);
                }
                return Some(e.target);
            }
            i += 1;
        }
        proof {
            lemma_goto_view_char(self.entries@);
        }
        None
    }
}

/// Drive the tables over a token stream, starting from state 0 with empty
/// stacks.  The result is exactly what the `drive` specification says for
/// this input.
pub fn parse(lex_stream: &Vec<u64>, rules: &Vec<Rule>, parsing_table: &ParsingTable) -> (r:
    ParseRun)
    requires
        action_keys_sorted(parsing_table.action.entries@),
        goto_keys_sorted(parsing_table.goto.entries@),
    ensures
        ({
            let d = drive(
                rules@,
                action_view(parsing_table.action.entries@),
                goto_view(parsing_table.goto.entries@),
                seq![0],
                Seq::empty(),
                lex_stream@,
                0,
                parse_fuel(),
            );
            r.outcome == d.0 && r.state_stack@ == d.1 && r.symbol_stack@ == d.2
        }),
        r.state_stack@.len() == r.symbol_stack@.len() + 1,
{
    let ghost am = action_view(parsing_table.action.entries@);
    let ghost gm = goto_view(parsing_table.goto.entries@);
    proof {
        lemma_drive_stack_discipline(
            rules@,
            am,
            gm,
            seq![0],
            Seq::empty(),
            lex_stream@,
            0,
            parse_fuel(),
        );
    }
    let mut state_stack: Vec<usize> = Vec::new();
    state_stack.push(0);
    proof {
        assert(state_stack@ =~= seq![0]);
    }
    let mut parse_stack: Vec<TerminalOrNonTerminal> = Vec::new();
    let mut pos: usize = 0;
    let mut fuel: usize = usize::MAX;
    loop
        invariant
            action_keys_sorted(parsing_table.action.entries@),
            goto_keys_sorted(parsing_table.goto.entries@),
            am == action_view(parsing_table.action.entries@),
            gm == goto_view(parsing_table.goto.entries@),
            drive(
                rules@,
                am,
                gm,
                state_stack@,
                parse_stack@,
                lex_stream@,
                pos as int,
                fuel as nat,
            ) == drive(rules@, am, gm, seq![0], Seq::empty(), lex_stream@, 0, parse_fuel()),
            ({
                let d = drive(rules@, am, gm, seq![0], Seq::empty(), lex_stream@, 0, parse_fuel());
                d.1.len() == d.2.len() + 1
            }),
        decreases fuel,
    {
        if fuel == 0 {
            return ParseRun {
                outcome: ParseOutcome::StepLimit,
                state_stack,
                symbol_stack: parse_stack,
            };
        }
        if state_stack.len() == 0 || pos >= lex_stream.len() {
            return ParseRun {
                outcome: ParseOutcome::MissingAction,
                state_stack,
                symbol_stack: parse_stack,
            };
        }
        let state = state_stack[state_stack.len() - 1];
        let token = lex_stream[pos];
        proof {
            assert(state == state_stack@.last());
        }
        let looked = parsing_table.action.get(state, token);
        match looked {
            None => {
                return ParseRun {
                    outcome: ParseOutcome::MissingAction,
                    state_stack,
                    symbol_stack: parse_stack,
                };
            },
            Some(Action::Shift(n)) => {
                let ghost st0 = state_stack@;
                let ghost sym0 = parse_stack@;
                let ghost fuel0 = fuel as nat;
                state_stack.push(n);
                parse_stack.push(TerminalOrNonTerminal::Terminal(token));
                pos += 1;
                fuel -= 1;
                proof {
                    assert(drive(rules@, am, gm, st0, sym0, lex_stream@, pos - 1, fuel0)
                        == drive(
                        rules@,
                        am,
                        gm,
                        state_stack@,
                        parse_stack@,
                        lex_stream@,
                        pos as int,
                        fuel as nat,
                    ));
                }
            },
            Some(Action::Reduce(ri)) => {
                let ghost st0 = state_stack@;
                let ghost sym0 = parse_stack@;
                let ghost fuel0 = fuel as nat;
                if ri >= rules.len() {
                    return ParseRun {
                        outcome: ParseOutcome::MissingGoto,
                        state_stack,
                        symbol_stack: parse_stack,
                    };
                }
                let rule_len = rules[ri].rhs.len();
                if state_stack.len() <= rule_len || parse_stack.len() < rule_len {
                    return ParseRun {
                        outcome: ParseOutcome::MissingGoto,
                        state_stack,
                        symbol_stack: parse_stack,
                    };
                }
                state_stack.truncate(state_stack.len() - rule_len);
                parse_stack.truncate(parse_stack.len() - rule_len);
                proof {
                    assert(state_stack@ == st0.subrange(0, st0.len() - rule_len));
                    assert(parse_stack@ == sym0.subrange(0, sym0.len() - rule_len));
                    assert(state_stack@.len() > 0);
                }
                let top = state_stack[state_stack.len() - 1];
                let lhs = rules[ri].lhs;
                proof {
                    assert(top == state_stack@.last());
                }
                let goto_target = parsing_table.goto.get(top, lhs);
                match goto_target {
                    None => {
                        return ParseRun {
                            outcome: ParseOutcome::MissingGoto,
                            state_stack,
                            symbol_stack: parse_stack,
                        };
                    },
                    Some(g) => {
                        let ghost st1 = state_stack@;
                        let ghost sym1 = parse_stack@;
                        state_stack.push(g);
                        parse_stack.push(TerminalOrNonTerminal::NonTerminal(lhs));
                        fuel -= 1;
                        proof {
                            assert(drive(rules@, am, gm, st0, sym0, lex_stream@, pos as int, fuel0)
                                == drive(
                                rules@,
                                am,
                                gm,
                                state_stack@,
                                parse_stack@,
                                lex_stream@,
                                pos as int,
                                fuel as nat,
                            ));
                        }
                    },
                }
            },
            Some(Action::Accept) => {
                return ParseRun {
                    outcome: ParseOutcome::Accepted,
                    state_stack,
                    symbol_stack: parse_stack,
                };
            },
        }
    }
}


/// Derive the parsing table, building the automaton first unless one is
/// handed in.  With a precomputed automaton this always succeeds; building
/// one afresh inherits the automaton construction's iteration budget.
pub fn generate_parsing_table(
    rules: &Vec<Rule>,
    precomputed_state_machine: Option<&Vec<LR1State>>,
) -> (r: Option<ParsingTable>)
    requires
        match precomputed_state_machine {
            Some(sm) => machine_wf(rules@, sm@),
            None => rules@.len() >= 1 && rules_wf(rules@) && tail_nts_have_rules(rules@),
        },
    ensures
        precomputed_state_machine is Some ==> r is Some,
        match r {
            Some(t) => {
                &&& action_keys_sorted(t.action.entries@)
                &&& goto_keys_sorted(t.goto.entries@)
                &&& match precomputed_state_machine {
                    Some(sm) => action_view(t.action.entries@) == table_spec(rules@, sm@).0
                        && goto_view(t.goto.entries@) == table_spec(rules@, sm@).1,
                    None => exists|states: Seq<LR1State>|
                        #[trigger] machine_wf(rules@, states) && build_result(rules@) == Some(
                            gview(states),
                        ) && action_view(t.action.entries@) == table_spec(rules@, states).0
                            && goto_view(t.goto.entries@) == table_spec(rules@, states).1,
                }
            },
            None => precomputed_state_machine is None && build_result(rules@) is None,
        },
{
    match precomputed_state_machine {
        Some(sm) => Some(generate_parsing_table_from(rules, sm)),
        None => {
            let built = generate_lr1_statemachine(rules);
            match built {
                Some(states) => {
                    let t = generate_parsing_table_from(rules, &states);
                    proof {
                        assert(machine_wf(rules@, states@) && build_result(rules@) == Some(
                            gview(states@),
                        ) && action_view(t.action.entries@) == table_spec(rules@, states@).0
                            && goto_view(t.goto.entries@) == table_spec(rules@, states@).1);
                    }
                    Some(t)
                },
                None => None,
            }
        },
    }
}


// ---------------------------------------------------------------------
// Grouped table rows: the persistence layout.  A table is serialized as
// a mapping from state to that state's bindings, not as a flat list of
// triples; grouping and flattening are exact inverses, so a persisted
// table reads back equal to the original.
// ---------------------------------------------------------------------

/// One terminal's action within a state's row.
#[derive(Copy, Clone, Debug, PartialEq, Eq, Structural)]
pub struct ActionCell {
    pub terminal: u64,
    pub action: Action,
}

/// All ACTION bindings of one state.
pub struct ActionRow {
    pub state: usize,
    pub actions: Vec<ActionCell>,
}

/// One non-terminal's target within a state's row.
#[derive(Copy, Clone, Debug, PartialEq, Eq, Structural)]
pub struct GotoCell {
    pub nonterminal: u64,
    pub target: usize,
}

/// All GOTO bindings of one state.
pub struct GotoRow {
    pub state: usize,
    pub gotos: Vec<GotoCell>,
}

/// The entries a row stands for.
pub open spec fn action_row_entries(r: ActionRow) -> Seq<ActionEntry> {
    r.actions@.map_values(
        |c: ActionCell| ActionEntry {
            key: StateTerminal { state: r.state, terminal: c.terminal },
            action: c.action,
        },
    )
}

pub open spec fn goto_row_entries(r: GotoRow) -> Seq<GotoEntry> {
    r.gotos@.map_values(
        |c: GotoCell| GotoEntry {
            key: StateNonTerminal { state: r.state, nonterminal: c.nonterminal },
            target: c.target,
        },
    )
}

/// The flat entry sequence a row sequence stands for.
pub open spec fn action_rows_flat(rows: Seq<ActionRow>) -> Seq<ActionEntry>
    decreases rows.len(),
{
    if rows.len() == 0 {
        Seq::empty()
    } else {
        action_rows_flat(rows.drop_last()) + action_row_entries(rows.last())
    }
}

pub open spec fn goto_rows_flat(rows: Seq<GotoRow>) -> Seq<GotoEntry>
    decreases rows.len(),
{
    if rows.len() == 0 {
        Seq::empty()
    } else {
        goto_rows_flat(rows.drop_last()) + goto_row_entries(rows.last())
    }
}

/// Each state heads at most one row: the rows' states strictly increase.
pub open spec fn action_rows_states_increasing(rows: Seq<ActionRow>) -> bool {
    forall|p: int, q: int|
        0 <= p < q < rows.len() ==> (#[trigger] rows[p]).state < (#[trigger] rows[q]).state
}

pub open spec fn goto_rows_states_increasing(rows: Seq<GotoRow>) -> bool {
    forall|p: int, q: int|
        0 <= p < q < rows.len() ==> (#[trigger] rows[p]).state < (#[trigger] rows[q]).state
}

/// Group a table's entries by state, consecutive runs into one row each.
/// Flattening the rows gives back exactly the entries, and on a table with
/// sorted keys each state heads exactly one row: the persisted layout is a
/// mapping from state to that state's bindings, never a flat triple list.
pub fn group_actions(t: &ActionTable) -> (rows: Vec<ActionRow>)
    ensures
        action_rows_flat(rows@) == t.entries@,
        action_keys_sorted(t.entries@) ==> action_rows_states_increasing(rows@),
{
    let mut rows: Vec<ActionRow> = Vec::new();
    let mut i: usize = 0;
    while i < t.entries.len()
        invariant
            i <= t.entries@.len(),
            action_rows_flat(rows@) == t.entries@.take(i as int),
            i == 0 ==> rows@.len() == 0,
            i > 0 ==> rows@.len() > 0 && rows@.last().state == t.entries@[i - 1].key.state,
            action_keys_sorted(t.entries@) ==> action_rows_states_increasing(rows@),
        decreases t.entries@.len() - i,
    {
        let e = t.entries[i];
        let cell = ActionCell { terminal: e.key.terminal, action: e.action };
        let ghost rows0 = rows@;
        let n = rows.len();
        let mut appended = false;
        if n > 0 {
            if rows[n - 1].state == e.key.state {
                let last = &mut rows[n - 1];
                last.actions.push(cell);
                appended = true;
                proof {
                    assert(rows@ == rows0.update(n - 1, rows@[n - 1]));
                    assert(rows@.drop_last() =~= rows0.drop_last());
                    assert(action_row_entries(rows@.last()) =~= action_row_entries(
                        rows0.last(),
                    ).push(e)) by {
                        assert(rows@.last().actions@ == rows0.last().actions@.push(cell));
                    }
                    assert(action_rows_flat(rows@) =~= action_rows_flat(rows0).push(e));
                    // the states are untouched: only the last row's cells grew
                    assert(rows@.last().state == rows0.last().state);
                    assert(forall|p: int|
                        0 <= p < rows@.len() ==> (#[trigger] rows@[p]).state == rows0[p].state);
                    if action_keys_sorted(t.entries@) {
                        assert forall|p: int, q: int|
                            0 <= p < q < rows@.len() implies (#[trigger] rows@[p]).state < (
                        #[trigger] rows@[q]).state by {
                            assert(rows0[p].state < rows0[q].state);
                        }
                    }
                }
            }
        }
        if !appended {
            let mut actions: Vec<ActionCell> = Vec::new();
            actions.push(cell);
            rows.push(ActionRow { state: e.key.state, actions });
            proof {
                assert(rows@.drop_last() =~= rows0);
                assert(action_row_entries(rows@.last()) =~= seq![e]);
                assert(action_rows_flat(rows@) =~= action_rows_flat(rows0).push(e));
                if action_keys_sorted(t.entries@) {
                    // the fresh row's state exceeds every earlier one: sorted
                    // keys put all of a state's entries in one consecutive run
                    assert forall|p: int, q: int|
                        0 <= p < q < rows@.len() implies (#[trigger] rows@[p]).state < (
                    #[trigger] rows@[q]).state by {
                        if q < rows@.len() - 1 {
                            assert(rows0[p].state < rows0[q].state);
                        } else {
                            assert(rows0.len() > 0);
                            assert(i > 0);
                            assert(rows0.last().state == t.entries@[i - 1].key.state);
                            assert(t.entries@[i - 1].key.lt_spec(t.entries@[i as int].key));
                            assert(rows0.last().state != e.key.state);
                            assert(rows0.last().state < e.key.state);
                            if p < rows0.len() - 1 {
                                assert(rows0[p].state < rows0.last().state);
                            }
                        }
                    }
                }
            }
        }
        proof {
            assert(t.entries@.take(i + 1) =~= t.entries@.take(i as int).push(
                t.entries@[i as int],
            ));
        }
        i += 1;
    }
    proof {
        assert(t.entries@.take(t.entries@.len() as int) =~= t.entries@);
    }
    rows
}

/// Any row layout that flattens back to a table's entries shows every one
/// of them: entry `k` stands as a cell of a row headed by its own state.
/// Everything that renders or persists the grouped rows therefore covers
/// each defined entry, under its state.
pub proof fn lemma_action_rows_cover_entries(
    rows: Seq<ActionRow>,
    entries: Seq<ActionEntry>,
    k: int,
)
    requires
        action_rows_flat(rows) == entries,
        0 <= k < entries.len(),
    ensures
        exists|i: int, j: int|
            0 <= i < rows.len() && 0 <= j < rows[i].actions@.len() && rows[i].state
                == entries[k].key.state && (#[trigger] rows[i].actions@[j]).terminal
                == entries[k].key.terminal && rows[i].actions@[j].action == entries[k].action,
    decreases rows.len(),
{
    assert(rows.len() > 0);
    let pre = action_rows_flat(rows.drop_last());
    let last_entries = action_row_entries(rows.last());
    assert(entries == pre + last_entries);
    if k < pre.len() {
        lemma_action_rows_cover_entries(rows.drop_last(), pre, k);
        let (i, j) = choose|i: int, j: int|
            0 <= i < rows.drop_last().len() && 0 <= j < rows.drop_last()[i].actions@.len()
                && rows.drop_last()[i].state == pre[k].key.state && (#[trigger] rows.drop_last()[
                i
            ].actions@[j]).terminal == pre[k].key.terminal
                && rows.drop_last()[i].actions@[j].action == pre[k].action;
        assert(rows.drop_last()[i] == rows[i]);
        assert(pre[k] == entries[k]);
        assert(0 <= i < rows.len() && 0 <= j < rows[i].actions@.len() && rows[i].state
            == entries[k].key.state && rows[i].actions@[j].terminal == entries[k].key.terminal
            && rows[i].actions@[j].action == entries[k].action);
    } else {
        let i = rows.len() - 1;
        let j = k - pre.len();
        assert(last_entries[j] == entries[k]);
        assert(last_entries[j].key.state == rows[i].state);
        assert(last_entries[j].key.terminal == rows[i].actions@[j].terminal);
        assert(last_entries[j].action == rows[i].actions@[j].action);
        assert(0 <= i < rows.len() && 0 <= j < rows[i].actions@.len() && rows[i].state
            == entries[k].key.state && rows[i].actions@[j].terminal == entries[k].key.terminal
            && rows[i].actions@[j].action == entries[k].action);
    }
}

/// The inverse of [`group_actions`]: concatenate the rows back into the
/// flat entry list.
pub fn flatten_actions(rows: &Vec<ActionRow>) -> (t: ActionTable)
    ensures
        t.entries@ == action_rows_flat(rows@),
{
    let mut entries: Vec<ActionEntry> = Vec::new();
    let mut i: usize = 0;
    while i < rows.len()
        invariant
            i <= rows@.len(),
            entries@ == action_rows_flat(rows@.take(i as int)),
        decreases rows@.len() - i,
    {
        let st = rows[i].state;
        let mut j: usize = 0;
        while j < rows[i].actions.len()
            invariant
                i < rows@.len(),
                j <= rows@[i as int].actions@.len(),
                st == rows@[i as int].state,
                entries@ =~= action_rows_flat(rows@.take(i as int)) + action_row_entries(
                    rows@[i as int],
                ).take(j as int),
            decreases rows@[i as int].actions@.len() - j,
        {
            let c = rows[i].actions[j];
            entries.push(
                ActionEntry { key: StateTerminal { state: st, terminal: c.terminal }, action: c.action },
            );
            proof {
                assert(rows@[i as int].actions@[j as int] == c);
                assert(action_row_entries(rows@[i as int]).len()
                    == rows@[i as int].actions@.len());
                assert(action_row_entries(rows@[i as int])[j as int] == (ActionEntry {
                    key: StateTerminal {
                        state: rows@[i as int].state,
                        terminal: rows@[i as int].actions@[j as int].terminal,
                    },
                    action: rows@[i as int].actions@[j as int].action,
                }));
                assert(action_row_entries(rows@[i as int])[j as int] == (ActionEntry {
                    key: StateTerminal { state: st, terminal: c.terminal },
                    action: c.action,
                }));
                assert(action_row_entries(rows@[i as int]).take(j + 1) =~= action_row_entries(
                    rows@[i as int],
                ).take(j as int).push(action_row_entries(rows@[i as int])[j as int]));
            }
            j += 1;
        }
        proof {
            assert(action_row_entries(rows@[i as int]).take(
                rows@[i as int].actions@.len() as int,
            ) =~= action_row_entries(rows@[i as int]));
            assert(rows@.take(i + 1).drop_last() =~= rows@.take(i as int));
            assert(rows@.take(i + 1).last() == rows@[i as int]);
            assert(action_rows_flat(rows@.take(i + 1)) =~= action_rows_flat(rows@.take(i as int))
                + action_row_entries(rows@[i as int]));
        }
        i += 1;
    }
    proof {
        assert(rows@.take(rows@.len() as int) =~= rows@);
    }
    ActionTable { entries }
}

/// Group the GOTO entries by state, consecutive runs into one row each;
/// on a table with sorted keys each state heads exactly one row.
pub fn group_gotos(t: &GoToTable) -> (rows: Vec<GotoRow>)
    ensures
        goto_rows_flat(rows@) == t.entries@,
        goto_keys_sorted(t.entries@) ==> goto_rows_states_increasing(rows@),
{
    let mut rows: Vec<GotoRow> = Vec::new();
    let mut i: usize = 0;
    while i < t.entries.len()
        invariant
            i <= t.entries@.len(),
            goto_rows_flat(rows@) == t.entries@.take(i as int),
            i == 0 ==> rows@.len() == 0,
            i > 0 ==> rows@.len() > 0 && rows@.last().state == t.entries@[i - 1].key.state,
            goto_keys_sorted(t.entries@) ==> goto_rows_states_increasing(rows@),
        decreases t.entries@.len() - i,
    {
        let e = t.entries[i];
        let cell = GotoCell { nonterminal: e.key.nonterminal, target: e.target };
        let ghost rows0 = rows@;
        let n = rows.len();
        let mut appended = false;
        if n > 0 {
            if rows[n - 1].state == e.key.state {
                let last = &mut rows[n - 1];
                last.gotos.push(cell);
                appended = true;
                proof {
                    assert(rows@ == rows0.update(n - 1, rows@[n - 1]));
                    assert(rows@.drop_last() =~= rows0.drop_last());
                    assert(goto_row_entries(rows@.last()) =~= goto_row_entries(
                        rows0.last(),
                    ).push(e)) by {
                        assert(rows@.last().gotos@ == rows0.last().gotos@.push(cell));
                    }
                    assert(goto_rows_flat(rows@) =~= goto_rows_flat(rows0).push(e));
                    // the states are untouched: only the last row's cells grew
                    assert(rows@.last().state == rows0.last().state);
                    assert(forall|p: int|
                        0 <= p < rows@.len() ==> (#[trigger] rows@[p]).state == rows0[p].state);
                    if goto_keys_sorted(t.entries@) {
                        assert forall|p: int, q: int|
                            0 <= p < q < rows@.len() implies (#[trigger] rows@[p]).state < (
                        #[trigger] rows@[q]).state by {
                            assert(rows0[p].state < rows0[q].state);
                        }
                    }
                }
            }
        }
        if !appended {
            let mut gotos: Vec<GotoCell> = Vec::new();
            gotos.push(cell);
            rows.push(GotoRow { state: e.key.state, gotos });
            proof {
                assert(rows@.drop_last() =~= rows0);
                assert(goto_row_entries(rows@.last()) =~= seq![e]);
                assert(goto_rows_flat(rows@) =~= goto_rows_flat(rows0).push(e));
                if goto_keys_sorted(t.entries@) {
                    // the fresh row's state exceeds every earlier one: sorted
                    // keys put all of a state's entries in one consecutive run
                    assert forall|p: int, q: int|
                        0 <= p < q < rows@.len() implies (#[trigger] rows@[p]).state < (
                    #[trigger] rows@[q]).state by {
                        if q < rows@.len() - 1 {
                            assert(rows0[p].state < rows0[q].state);
                        } else {
                            assert(rows0.len() > 0);
                            assert(i > 0);
                            assert(rows0.last().state == t.entries@[i - 1].key.state);
                            assert(t.entries@[i - 1].key.lt_spec(t.entries@[i as int].key));
                            assert(rows0.last().state != e.key.state);
                            assert(rows0.last().state < e.key.state);
                            if p < rows0.len() - 1 {
                                assert(rows0[p].state < rows0.last().state);
                            }
                        }
                    }
                }
            }
        }
        proof {
            assert(t.entries@.take(i + 1) =~= t.entries@.take(i as int).push(
                t.entries@[i as int],
            ));
        }
        i += 1;
    }
    proof {
        assert(t.entries@.take(t.entries@.len() as int) =~= t.entries@);
    }
    rows
}

/// The GOTO counterpart of [`lemma_action_rows_cover_entries`]: entry `k`
/// stands as a cell of a row headed by its own state.
pub proof fn lemma_goto_rows_cover_entries(rows: Seq<GotoRow>, entries: Seq<GotoEntry>, k: int)
    requires
        goto_rows_flat(rows) == entries,
        0 <= k < entries.len(),
    ensures
        exists|i: int, j: int|
            0 <= i < rows.len() && 0 <= j < rows[i].gotos@.len() && rows[i].state
                == entries[k].key.state && (#[trigger] rows[i].gotos@[j]).nonterminal
                == entries[k].key.nonterminal && rows[i].gotos@[j].target == entries[k].target,
    decreases rows.len(),
{
    assert(rows.len() > 0);
    let pre = goto_rows_flat(rows.drop_last());
    let last_entries = goto_row_entries(rows.last());
    assert(entries == pre + last_entries);
    if k < pre.len() {
        lemma_goto_rows_cover_entries(rows.drop_last(), pre, k);
        let (i, j) = choose|i: int, j: int|
            0 <= i < rows.drop_last().len() && 0 <= j < rows.drop_last()[i].gotos@.len()
                && rows.drop_last()[i].state == pre[k].key.state && (#[trigger] rows.drop_last()[
                i
            ].gotos@[j]).nonterminal == pre[k].key.nonterminal
                && rows.drop_last()[i].gotos@[j].target == pre[k].target;
        assert(rows.drop_last()[i] == rows[i]);
        assert(pre[k] == entries[k]);
        assert(0 <= i < rows.len() && 0 <= j < rows[i].gotos@.len() && rows[i].state
            == entries[k].key.state && rows[i].gotos@[j].nonterminal
            == entries[k].key.nonterminal && rows[i].gotos@[j].target == entries[k].target);
    } else {
        let i = rows.len() - 1;
        let j = k - pre.len();
        assert(last_entries[j] == entries[k]);
        assert(last_entries[j].key.state == rows[i].state);
        assert(last_entries[j].key.nonterminal == rows[i].gotos@[j].nonterminal);
        assert(last_entries[j].target == rows[i].gotos@[j].target);
        assert(0 <= i < rows.len() && 0 <= j < rows[i].gotos@.len() && rows[i].state
            == entries[k].key.state && rows[i].gotos@[j].nonterminal
            == entries[k].key.nonterminal && rows[i].gotos@[j].target == entries[k].target);
    }
}

/// The inverse of [`group_gotos`].
pub fn flatten_gotos(rows: &Vec<GotoRow>) -> (t: GoToTable)
    ensures
        t.entries@ == goto_rows_flat(rows@),
{
    let mut entries: Vec<GotoEntry> = Vec::new();
    let mut i: usize = 0;
    while i < rows.len()
        invariant
            i <= rows@.len(),
            entries@ == goto_rows_flat(rows@.take(i as int)),
        decreases rows@.len() - i,
    {
        let st = rows[i].state;
        let mut j: usize = 0;
        while j < rows[i].gotos.len()
            invariant
                i < rows@.len(),
                j <= rows@[i as int].gotos@.len(),
                st == rows@[i as int].state,
                entries@ =~= goto_rows_flat(rows@.take(i as int)) + goto_row_entries(
                    rows@[i as int],
                ).take(j as int),
            decreases rows@[i as int].gotos@.len() - j,
        {
            let c = rows[i].gotos[j];
            entries.push(
                GotoEntry {
                    key: StateNonTerminal { state: st, nonterminal: c.nonterminal },
                    target: c.target,
                },
            );
            proof {
                assert(rows@[i as int].gotos@[j as int] == c);
                assert(goto_row_entries(rows@[i as int]).len() == rows@[i as int].gotos@.len());
                assert(goto_row_entries(rows@[i as int])[j as int] == (GotoEntry {
                    key: StateNonTerminal {
                        state: rows@[i as int].state,
                        nonterminal: rows@[i as int].gotos@[j as int].nonterminal,
                    },
                    target: rows@[i as int].gotos@[j as int].target,
                }));
                assert(goto_row_entries(rows@[i as int])[j as int] == (GotoEntry {
                    key: StateNonTerminal { state: st, nonterminal: c.nonterminal },
                    target: c.target,
                }));
                assert(goto_row_entries(rows@[i as int]).take(j + 1) =~= goto_row_entries(
                    rows@[i as int],
                ).take(j as int).push(goto_row_entries(rows@[i as int])[j as int]));
            }
            j += 1;
        }
        proof {
            assert(goto_row_entries(rows@[i as int]).take(
                rows@[i as int].gotos@.len() as int,
            ) =~= goto_row_entries(rows@[i as int]));
            assert(rows@.take(i + 1).drop_last() =~= rows@.take(i as int));
            assert(rows@.take(i + 1).last() == rows@[i as int]);
            assert(goto_rows_flat(rows@.take(i + 1)) =~= goto_rows_flat(rows@.take(i as int))
                + goto_row_entries(rows@[i as int]));
        }
        i += 1;
    }
    proof {
        assert(rows@.take(rows@.len() as int) =~= rows@);
    }
    GoToTable { entries }
}


impl Action {
    /// Render as `s<n>`, `r<n>` or `acc`.
    pub fn format(&self) -> (r: String) {
        match self {
            Action::Shift(n) => {
                let mut s = String::from_str("s");
                let num = crate::parser_utils::render::format_usize(*n);
                s.append(num.as_str());
                s
            },
            Action::Reduce(n) => {
                let mut s = String::from_str("r");
                let num = crate::parser_utils::render::format_usize(*n);
                s.append(num.as_str());
                s
            },
            Action::Accept => String::from_str("acc"),
        }
    }
}

/// Render the parsing table: per state, the action for every terminal with
/// a defined entry and the goto for every non-terminal with a defined
/// entry.  `padding` indents the per-state lines.  The text layout itself
/// is presentation only; that the rows rendered here cover every defined
/// entry, once per state, is the contract of [`group_actions`] and
/// [`group_gotos`] with [`lemma_action_rows_cover_entries`] and
/// [`lemma_goto_rows_cover_entries`], and every row and cell below is
/// emitted whole.
pub fn format_parsing_table(parsing_table: &ParsingTable, padding: usize) -> (r: String) {
    let arows = group_actions(&parsing_table.action);
    let grows = group_gotos(&parsing_table.goto);
    let mut s = String::from_str("ACTION\n");
    let mut i: usize = 0;
    while i < arows.len()
        invariant
            i <= arows@.len(),
        decreases arows@.len() - i,
    {
        s.append("state ");
        let num = crate::parser_utils::render::format_usize(arows[i].state);
        s.append(num.as_str());
        s.append(":\n");
        let mut j: usize = 0;
        while j < arows[i].actions.len()
            invariant
                i < arows@.len(),
                j <= arows@[i as int].actions@.len(),
            decreases arows@[i as int].actions@.len() - j,
        {
            let mut p: usize = 0;
            while p < padding
                invariant
                    p <= padding,
                decreases padding - p,
            {
                s.append(" ");
                p += 1;
            }
            let cell = arows[i].actions[j];
            let lab = crate::parser_utils::render::symbol_label(
                &TerminalOrNonTerminal::Terminal(cell.terminal),
            );
            s.append(lab.as_str());
            s.append(" : ");
            let act = cell.action.format();
            s.append(act.as_str());
            s.append("\n");
            j += 1;
        }
        i += 1;
    }
    s.append("GOTO\n");
    let mut g: usize = 0;
    while g < grows.len()
        invariant
            g <= grows@.len(),
        decreases grows@.len() - g,
    {
        s.append("state ");
        let num = crate::parser_utils::render::format_usize(grows[g].state);
        s.append(num.as_str());
        s.append(":\n");
        let mut j: usize = 0;
        while j < grows[g].gotos.len()
            invariant
                g < grows@.len(),
                j <= grows@[g as int].gotos@.len(),
            decreases grows@[g as int].gotos@.len() - j,
        {
            let mut p: usize = 0;
            while p < padding
                invariant
                    p <= padding,
                decreases padding - p,
            {
                s.append(" ");
                p += 1;
            }
            let cell = grows[g].gotos[j];
            let lab = crate::parser_utils::render::symbol_label(
                &TerminalOrNonTerminal::NonTerminal(cell.nonterminal),
            );
            s.append(lab.as_str());
            s.append(" : ");
            let tnum = crate::parser_utils::render::format_usize(cell.target);
            s.append(tnum.as_str());
            s.append("\n");
            j += 1;
        }
        g += 1;
    }
    s
}

} // verus!

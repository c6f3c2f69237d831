use lr1gen::parser_types::augmented_grammar::AugmentedGrammar;
use lr1gen::parser_types::lr1state::{format_lr1_state_machine, generate_lr1_statemachine};
use lr1gen::parser_types::rule::Rule;
use lr1gen::parser_types::terminal_or_nonterminal::TerminalOrNonTerminal;
use lr1gen::parser_types::lr1item::format_lr1_set;
use lr1gen::parser_utils::render::symbol_label;

fn nt(code: u64) -> TerminalOrNonTerminal {
    TerminalOrNonTerminal::NonTerminal(code)
}

fn t(code: u64) -> TerminalOrNonTerminal {
    TerminalOrNonTerminal::Terminal(code)
}

fn arithmetic_rules() -> Vec<Rule> {
    let grammar = AugmentedGrammar {
        start_rule: Rule { lhs: 0, rhs: vec![nt(1)] },
        rules: vec![
            Rule { lhs: 1, rhs: vec![nt(1), t(5), nt(2)] },
            Rule { lhs: 1, rhs: vec![nt(2)] },
            Rule { lhs: 2, rhs: vec![nt(2), t(6), nt(3)] },
            Rule { lhs: 2, rhs: vec![nt(3)] },
            Rule { lhs: 3, rhs: vec![t(3), nt(1), t(4)] },
            Rule { lhs: 3, rhs: vec![t(1)] },
            Rule { lhs: 3, rhs: vec![t(2)] },
        ],
    };
    grammar.rules()
}

#[test]
fn state_numbers_follow_discovery_order() {
    let rules = arithmetic_rules();
    let states = generate_lr1_statemachine(&rules).expect("automaton");
    assert!(states.len() >= 2);
    for (i, st) in states.iter().enumerate() {
        assert_eq!(st.state_number, i);
        for tr in &st.transitions {
            assert!(tr.target < states.len());
        }
    }
    // State 0 starts from the augmented start item.
    assert_eq!(states[0].kernel.len(), 1);
    assert_eq!(states[0].kernel[0].index, 0);
    assert_eq!(states[0].kernel[0].dot_index, 0);
    assert_eq!(states[0].kernel[0].lookahead, 0);
}

#[test]
fn state_count_is_stable_across_runs() {
    // The construction has no hash-order dependence: two runs agree state
    // for state, transition for transition.
    let rules = arithmetic_rules();
    let a = generate_lr1_statemachine(&rules).expect("automaton");
    let b = generate_lr1_statemachine(&rules).expect("automaton");
    assert_eq!(a.len(), b.len());
    for (x, y) in a.iter().zip(b.iter()) {
        assert_eq!(x.state_number, y.state_number);
        assert_eq!(x.items, y.items);
        assert_eq!(x.kernel, y.kernel);
        assert_eq!(x.transitions, y.transitions);
    }
}

#[test]
fn merged_state_holds_union_of_lookaheads() {
    // S -> a X d | b X e; X -> c.  The state for `X -> c .` is reached via
    // two different prefixes with different lookaheads; its LR(0) core is
    // the same both times, so it must collapse into one state carrying both
    // lookaheads.
    // Terminals: 0 = $, 1 = a, 2 = b, 3 = c, 4 = d, 5 = e.
    // Non-terminals: 0 = Start, 1 = S, 2 = X.
    let grammar = AugmentedGrammar {
        start_rule: Rule { lhs: 0, rhs: vec![nt(1)] },
        rules: vec![
            Rule { lhs: 1, rhs: vec![t(1), nt(2), t(4)] },
            Rule { lhs: 1, rhs: vec![t(2), nt(2), t(5)] },
            Rule { lhs: 2, rhs: vec![t(3)] },
        ],
    };
    let rules = grammar.rules();
    let states = generate_lr1_statemachine(&rules).expect("automaton");
    // Exactly one state holds an item of rule `X -> c` with the dot at the
    // end, and it holds it under both lookaheads d and e.
    let mut hits = 0;
    for st in &states {
        let with_d = st.items.iter().any(|it| it.index == 3 && it.dot_index == 1 && it.lookahead == 4);
        let with_e = st.items.iter().any(|it| it.index == 3 && it.dot_index == 1 && it.lookahead == 5);
        if with_d || with_e {
            hits += 1;
            assert!(with_d && with_e);
        }
    }
    assert_eq!(hits, 1);
    // No two states share their core item set.
    for i in 0..states.len() {
        for j in (i + 1)..states.len() {
            let ci: Vec<(usize, usize)> = {
                let mut v: Vec<(usize, usize)> =
                    states[i].items.iter().map(|it| (it.index, it.dot_index)).collect();
                v.sort();
                v.dedup();
                v
            };
            let cj: Vec<(usize, usize)> = {
                let mut v: Vec<(usize, usize)> =
                    states[j].items.iter().map(|it| (it.index, it.dot_index)).collect();
                v.sort();
                v.dedup();
                v
            };
            assert_ne!(ci, cj);
        }
    }
}

#[test]
fn renders_mention_every_state() {
    let rules = arithmetic_rules();
    let states = generate_lr1_statemachine(&rules).expect("automaton");
    let text = format_lr1_state_machine(&rules, &states);
    assert!(text.contains("state 0:"));
    assert!(text.contains("transitions:"));
    let set_text = format_lr1_set(&rules, &states[0].items);
    assert!(set_text.starts_with("{"));
    assert!(set_text.ends_with("}"));
    assert!(set_text.contains("N0 -> . N1, $"));
}

#[test]
fn symbol_labels() {
    assert_eq!(symbol_label(&t(0)), "$");
    assert_eq!(symbol_label(&t(12)), "T12");
    assert_eq!(symbol_label(&nt(7)), "N7");
}

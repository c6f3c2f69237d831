use lr1gen::parser_types::augmented_grammar::AugmentedGrammar;
use lr1gen::parser_types::lr1item::LR1Item;
use lr1gen::parser_types::rule::Rule;
use lr1gen::parser_types::terminal_or_nonterminal::TerminalOrNonTerminal;
use lr1gen::parser_utils::closure::{check_tail_nts_have_rules, lr1_closure};

fn nt(code: u64) -> TerminalOrNonTerminal {
    TerminalOrNonTerminal::NonTerminal(code)
}

fn t(code: u64) -> TerminalOrNonTerminal {
    TerminalOrNonTerminal::Terminal(code)
}

fn arithmetic_rules() -> Vec<Rule> {
    let grammar = AugmentedGrammar {
        start_rule: Rule { lhs: 0, rhs: vec![nt(1)] },
        rules: vec![
            Rule { lhs: 1, rhs: vec![nt(1), t(5), nt(2)] },
            Rule { lhs: 1, rhs: vec![nt(2)] },
            Rule { lhs: 2, rhs: vec![nt(2), t(6), nt(3)] },
            Rule { lhs: 2, rhs: vec![nt(3)] },
            Rule { lhs: 3, rhs: vec![t(3), nt(1), t(4)] },
            Rule { lhs: 3, rhs: vec![t(1)] },
            Rule { lhs: 3, rhs: vec![t(2)] },
        ],
    };
    grammar.rules()
}

fn item(index: usize, dot_index: usize, lookahead: u64) -> LR1Item {
    LR1Item::new(index, dot_index, lookahead)
}

#[test]
fn closure_of_initial_kernel() {
    let rules = arithmetic_rules();
    assert!(check_tail_nts_have_rules(&rules));
    let kernel = vec![item(0, 0, 0)];
    let closure = lr1_closure(&rules, &kernel, None);
    // Rule 0 under $; rules 1-2 under { $, + }; rules 3-7 under { $, +, * }.
    let mut expected = vec![item(0, 0, 0)];
    for r in 1..=2usize {
        for la in [0u64, 5] {
            expected.push(item(r, 0, la));
        }
    }
    for r in 3..=7usize {
        for la in [0u64, 5, 6] {
            expected.push(item(r, 0, la));
        }
    }
    expected.sort_by_key(|it| (it.index, it.dot_index, it.lookahead));
    assert_eq!(closure, expected);
}

#[test]
fn closure_includes_kernel_and_is_sorted() {
    let rules = arithmetic_rules();
    let kernel = vec![item(1, 1, 0), item(0, 1, 0)];
    let closure = lr1_closure(&rules, &kernel, None);
    assert!(closure.contains(&item(0, 1, 0)));
    assert!(closure.contains(&item(1, 1, 0)));
    for w in closure.windows(2) {
        assert!(
            (w[0].index, w[0].dot_index, w[0].lookahead)
                < (w[1].index, w[1].dot_index, w[1].lookahead)
        );
    }
}

#[test]
fn closure_is_idempotent() {
    // closure(closure(kernel)) == closure(kernel): the closure is a fixed
    // point.
    let rules = arithmetic_rules();
    let kernel = vec![item(0, 0, 0)];
    let once = lr1_closure(&rules, &kernel, None);
    let twice = lr1_closure(&rules, &once, None);
    assert_eq!(once, twice);
}

#[test]
fn closure_of_end_of_rule_kernel_adds_nothing() {
    let rules = arithmetic_rules();
    // Start -> Add . under $: the dot is at the end, nothing fires.
    let kernel = vec![item(0, 1, 0)];
    let closure = lr1_closure(&rules, &kernel, None);
    assert_eq!(closure, kernel);
}

#[test]
fn closure_is_deterministic() {
    let rules = arithmetic_rules();
    let kernel = vec![item(0, 0, 0)];
    let a = lr1_closure(&rules, &kernel, None);
    let b = lr1_closure(&rules, &kernel, None);
    assert_eq!(a, b);
}

#[test]
fn item_accessors() {
    let rules = arithmetic_rules();
    // Add -> Add . + Factor, under $.
    let it = item(1, 1, 0);
    assert_eq!(it.next_symbol(&rules), Some(t(5)));
    assert_eq!(it.prev_symbol(&rules), Some(nt(1)));
    let def = it.definition(&rules);
    assert_eq!(def.lhs, 1);
    assert_eq!(def.rhs, vec![nt(1), t(5), nt(2)]);
    assert_eq!(item(1, 0, 0).prev_symbol(&rules), None);
    assert_eq!(item(1, 3, 0).next_symbol(&rules), None);
    let text = it.format(&rules);
    assert_eq!(text, "N1 -> N1 . T5 N2, $");
}

use lr1gen::c99grammar::{c99rules, NonTerminal, Terminal};
use lr1gen::parser_types::augmented_grammar::AugmentedGrammar;
use lr1gen::parser_types::rule::{check_rules_wf, Rule};
use lr1gen::parser_types::terminal_or_nonterminal::TerminalOrNonTerminal;
use lr1gen::parser_utils::first::{compute_firsts, first};
use lr1gen::parser_utils::follow::{check_all_rhs_nts_have_rules, compute_follows};

fn nt(code: u64) -> TerminalOrNonTerminal {
    TerminalOrNonTerminal::NonTerminal(code)
}

fn t(code: u64) -> TerminalOrNonTerminal {
    TerminalOrNonTerminal::Terminal(code)
}

/// The arithmetic grammar, augmented.  Terminals: 0 = end of input,
/// 1 = Name, 2 = Int, 3 = `(`, 4 = `)`, 5 = `+`, 6 = `*`.  Non-terminals:
/// 0 = Start, 1 = Add, 2 = Factor, 3 = Term.
fn arithmetic_rules() -> Vec<Rule> {
    let grammar = AugmentedGrammar {
        start_rule: Rule { lhs: 0, rhs: vec![nt(1)] },
        rules: vec![
            Rule { lhs: 1, rhs: vec![nt(1), t(5), nt(2)] },
            Rule { lhs: 1, rhs: vec![nt(2)] },
            Rule { lhs: 2, rhs: vec![nt(2), t(6), nt(3)] },
            Rule { lhs: 2, rhs: vec![nt(3)] },
            Rule { lhs: 3, rhs: vec![t(3), nt(1), t(4)] },
            Rule { lhs: 3, rhs: vec![t(1)] },
            Rule { lhs: 3, rhs: vec![t(2)] },
        ],
    };
    grammar.rules()
}

#[test]
fn first_of_term_is_its_leading_terminals() {
    let rules = arithmetic_rules();
    assert!(check_rules_wf(&rules));
    // Term -> ( Add ) | Name | Int: every alternative starts with a terminal.
    let f = first(&rules, 3);
    assert_eq!(f, vec![1, 2, 3]);
}

#[test]
fn first_flows_through_leading_nonterminals() {
    let rules = arithmetic_rules();
    // Add -> Add + Factor | Factor; Factor -> Factor * Term | Term.
    assert_eq!(first(&rules, 1), vec![1, 2, 3]);
    assert_eq!(first(&rules, 2), vec![1, 2, 3]);
    assert_eq!(first(&rules, 0), vec![1, 2, 3]);
}

#[test]
fn first_of_unary_operator_in_c99_grammar() {
    // UnaryOperator -> & | * | + | - | ~ | !: exactly those six terminals.
    let grammar = AugmentedGrammar {
        start_rule: Rule {
            lhs: NonTerminal::Start.code(),
            rhs: vec![nt(NonTerminal::TranslationUnit.code())],
        },
        rules: c99rules(),
    };
    let rules = grammar.rules();
    assert!(check_rules_wf(&rules));
    let f = first(&rules, NonTerminal::UnaryOperator.code());
    let mut expected = vec![
        Terminal::BitwiseAnd.code(),
        Terminal::Multiply.code(),
        Terminal::Plus.code(),
        Terminal::Minus.code(),
        Terminal::Tilde.code(),
        Terminal::Not.code(),
    ];
    expected.sort();
    assert_eq!(f, expected);
}

#[test]
fn compute_firsts_covers_every_lhs() {
    let rules = arithmetic_rules();
    let firsts = compute_firsts(&rules);
    assert_eq!(firsts.entries.len(), 4);
    for entry in &firsts.entries {
        assert_eq!(entry.terminals, first(&rules, entry.nt));
    }
    assert!(firsts.get(0).is_some());
    assert!(firsts.get(3).is_some());
    assert!(firsts.get(9).is_none());
}

#[test]
fn follow_sets_of_arithmetic_grammar() {
    let rules = arithmetic_rules();
    assert!(check_all_rhs_nts_have_rules(&rules));
    let follows = compute_follows(&rules, None).expect("fixed point");
    // FOLLOW(Start) = { $ }
    // FOLLOW(Add) = { $, ), + }
    // FOLLOW(Factor) = { $, ), +, * }
    // FOLLOW(Term) = { $, ), +, * }
    let by_key = |k: u64| -> Vec<u64> {
        follows
            .entries
            .iter()
            .find(|e| e.nt == k)
            .map(|e| e.terminals.clone())
            .expect("entry")
    };
    assert_eq!(by_key(0), vec![0]);
    assert_eq!(by_key(1), vec![0, 4, 5]);
    assert_eq!(by_key(2), vec![0, 4, 5, 6]);
    assert_eq!(by_key(3), vec![0, 4, 5, 6]);
}

#[test]
fn c99_grammar_shape() {
    let rules = c99rules();
    assert_eq!(rules.len(), 240);
    assert!(check_rules_wf(&rules));
    for rule in &rules {
        assert!(rule.rhs.len() >= 1);
    }
}

#[test]
fn follow_sets_of_c99_grammar_reach_a_fixed_point() {
    let grammar = AugmentedGrammar {
        start_rule: Rule {
            lhs: NonTerminal::Start.code(),
            rhs: vec![nt(NonTerminal::TranslationUnit.code())],
        },
        rules: c99rules(),
    };
    let rules = grammar.rules();
    assert!(check_all_rhs_nts_have_rules(&rules));
    let follows = compute_follows(&rules, None).expect("fixed point");
    // One entry per left-hand non-terminal, and end-of-input follows the
    // start symbol.
    assert_eq!(follows.entries.len(), 74);
    let start = follows
        .entries
        .iter()
        .find(|e| e.nt == NonTerminal::Start.code())
        .expect("start entry");
    assert!(start.terminals.contains(&Terminal::EOF.code()));
}

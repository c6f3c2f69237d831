use lr1gen::c99grammar::{c99rules, NonTerminal, Terminal};
use lr1gen::parser_types::action_goto::{
    flatten_actions, flatten_gotos, generate_parsing_table, group_actions, group_gotos, parse,
    Action, ActionEntry, ActionTable, GoToTable, ParseOutcome, ParsingTable, StateTerminal,
    format_parsing_table,
};
use lr1gen::parser_types::augmented_grammar::AugmentedGrammar;
use lr1gen::parser_types::rule::Rule;
use lr1gen::parser_types::terminal_or_nonterminal::TerminalOrNonTerminal;
use lr1gen::parser_types::nonterminal::NonTerminalTrait;
use lr1gen::parser_types::terminal::TerminalTrait;

fn nt(code: u64) -> TerminalOrNonTerminal {
    TerminalOrNonTerminal::NonTerminal(code)
}

fn t(code: u64) -> TerminalOrNonTerminal {
    TerminalOrNonTerminal::Terminal(code)
}

/// Terminals: 0 = $, 1 = Name, 2 = Int, 3 = `(`, 4 = `)`, 5 = `+`, 6 = `*`.
fn arithmetic_rules() -> Vec<Rule> {
    let grammar = AugmentedGrammar {
        start_rule: Rule { lhs: 0, rhs: vec![nt(1)] },
        rules: vec![
            Rule { lhs: 1, rhs: vec![nt(1), t(5), nt(2)] },
            Rule { lhs: 1, rhs: vec![nt(2)] },
            Rule { lhs: 2, rhs: vec![nt(2), t(6), nt(3)] },
            Rule { lhs: 2, rhs: vec![nt(3)] },
            Rule { lhs: 3, rhs: vec![t(3), nt(1), t(4)] },
            Rule { lhs: 3, rhs: vec![t(1)] },
            Rule { lhs: 3, rhs: vec![t(2)] },
        ],
    };
    grammar.rules()
}

#[test]
fn accepts_a_single_name() {
    let rules = arithmetic_rules();
    let table = generate_parsing_table(&rules, None).expect("tables");
    let run = parse(&vec![1, 0], &rules, &table);
    assert_eq!(run.outcome, ParseOutcome::Accepted);
    // Exactly the start symbol's expansion remains on the symbol stack.
    assert_eq!(run.symbol_stack, vec![nt(1)]);
}

#[test]
fn accepts_a_parenthesised_sum() {
    let rules = arithmetic_rules();
    let table = generate_parsing_table(&rules, None).expect("tables");
    // ( Name + Int ) $
    let run = parse(&vec![3, 1, 5, 2, 4, 0], &rules, &table);
    assert_eq!(run.outcome, ParseOutcome::Accepted);
    assert_eq!(run.symbol_stack, vec![nt(1)]);
}

#[test]
fn rejects_a_leading_plus_fast() {
    let rules = arithmetic_rules();
    let table = generate_parsing_table(&rules, None).expect("tables");
    // + Name $: no action for `+` in state 0.
    let run = parse(&vec![5, 1, 0], &rules, &table);
    assert_eq!(run.outcome, ParseOutcome::MissingAction);
    assert_eq!(run.state_stack, vec![0]);
    assert_eq!(run.symbol_stack, Vec::<TerminalOrNonTerminal>::new());
}

#[test]
fn rejects_truncated_input() {
    let rules = arithmetic_rules();
    let table = generate_parsing_table(&rules, None).expect("tables");
    // Name + $: nothing can follow the `+` here.
    let run = parse(&vec![1, 5, 0], &rules, &table);
    assert_eq!(run.outcome, ParseOutcome::MissingAction);
}

#[test]
fn corrupt_reduce_entry_reports_missing_goto() {
    let rules = arithmetic_rules();
    // A hand-made table whose only entry reduces by a rule index that does
    // not exist: an internal inconsistency, not an input error.
    let table = ParsingTable {
        action: ActionTable {
            entries: vec![ActionEntry {
                key: StateTerminal { state: 0, terminal: 1 },
                action: Action::Reduce(99),
            }],
        },
        goto: GoToTable { entries: vec![] },
    };
    let run = parse(&vec![1, 0], &rules, &table);
    assert_eq!(run.outcome, ParseOutcome::MissingGoto);
}

#[test]
fn tables_are_identical_across_runs() {
    // Byte-identical ACTION and GOTO tables from two full constructions.
    let rules = arithmetic_rules();
    let t1 = generate_parsing_table(&rules, None).expect("tables");
    let t2 = generate_parsing_table(&rules, None).expect("tables");
    assert_eq!(t1.action.entries, t2.action.entries);
    assert_eq!(t1.goto.entries, t2.goto.entries);
}

#[test]
fn grouping_round_trips() {
    let rules = arithmetic_rules();
    let table = generate_parsing_table(&rules, None).expect("tables");
    let arows = group_actions(&table.action);
    let grows = group_gotos(&table.goto);
    // Rows are keyed by state, grouping every entry of that state.
    let flat_a = flatten_actions(&arows);
    let flat_g = flatten_gotos(&grows);
    assert_eq!(flat_a.entries, table.action.entries);
    assert_eq!(flat_g.entries, table.goto.entries);
}

#[test]
fn action_rendering() {
    assert_eq!(Action::Shift(3).format(), "s3");
    assert_eq!(Action::Reduce(12).format(), "r12");
    assert_eq!(Action::Accept.format(), "acc");
    let rules = arithmetic_rules();
    let table = generate_parsing_table(&rules, None).expect("tables");
    let text = format_parsing_table(&table, 2);
    assert!(text.contains("ACTION"));
    assert!(text.contains("GOTO"));
    assert!(text.contains("state 0:"));
}

#[test]
fn accepts_a_c99_function_prototype() {
    // int f(int x, char *y); followed by end of input.
    let grammar = AugmentedGrammar {
        start_rule: Rule {
            lhs: NonTerminal::Start.code(),
            rhs: vec![nt(NonTerminal::TranslationUnit.code())],
        },
        rules: c99rules(),
    };
    let rules = grammar.rules();
    let table = generate_parsing_table(&rules, None).expect("tables");
    let stream: Vec<u64> = vec![
        Terminal::Int.code(),
        Terminal::Identifier.code(),
        Terminal::LeftParenthesis.code(),
        Terminal::Int.code(),
        Terminal::Identifier.code(),
        Terminal::Comma.code(),
        Terminal::Char.code(),
        Terminal::Multiply.code(),
        Terminal::Identifier.code(),
        Terminal::RightParenthesis.code(),
        Terminal::Semicolon.code(),
        Terminal::EOF.code(),
    ];
    let run = parse(&stream, &rules, &table);
    assert_eq!(run.outcome, ParseOutcome::Accepted);
    assert_eq!(run.symbol_stack, vec![nt(NonTerminal::TranslationUnit.code())]);
}

#[test]
fn grouping_yields_one_row_per_state() {
    // The persisted layout maps each state to its bindings: never two rows
    // for one state, never a flat list of single-cell triples.
    let rules = arithmetic_rules();
    let table = generate_parsing_table(&rules, None).expect("tables");
    let arows = group_actions(&table.action);
    let grows = group_gotos(&table.goto);
    for pair in arows.windows(2) {
        assert!(pair[0].state < pair[1].state);
    }
    for pair in grows.windows(2) {
        assert!(pair[0].state < pair[1].state);
    }
    let action_states: std::collections::BTreeSet<usize> =
        table.action.entries.iter().map(|e| e.key.state).collect();
    assert_eq!(arows.len(), action_states.len());
    let goto_states: std::collections::BTreeSet<usize> =
        table.goto.entries.iter().map(|e| e.key.state).collect();
    assert_eq!(grows.len(), goto_states.len());
}

#[test]
fn rule_table_shape_is_pinned() {
    let rules = c99rules();
    assert_eq!(rules.len(), 240);
    assert_eq!(rules[0].lhs, NonTerminal::PrimaryExpression.code());
    assert_eq!(rules[0].rhs, vec![t(Terminal::Identifier.code())]);
    // The reserved start symbol belongs to the synthetic augmented rule.
    assert!(rules.iter().all(|r| r.lhs != NonTerminal::Start.code()));
    assert!(rules.iter().all(|r| !r.rhs.is_empty()));
}

#[test]
fn eof_and_start_markers_are_exact() {
    assert!(Terminal::eof().is_eof());
    assert_eq!(Terminal::eof(), Terminal::EOF);
    assert!(!Terminal::Identifier.is_eof());
    assert!(!Terminal::Semicolon.is_eof());
    assert!(NonTerminal::start().is_start());
    assert_eq!(NonTerminal::start(), NonTerminal::Start);
    assert!(!NonTerminal::PrimaryExpression.is_start());
}

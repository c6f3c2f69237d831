pub mod terminal;
pub mod nonterminal;
pub mod terminal_or_nonterminal;
pub mod rule;
pub mod augmented_grammar;
pub mod lr1item;
pub mod lr1state;
pub mod action_goto;

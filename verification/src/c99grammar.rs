//! The toy C99-subset grammar: concrete terminal and non-terminal
//! alphabets and the rule table.  The table is plain data for the generic
//! construction pipeline; codes are assigned in declaration order, with
//! end-of-input and the synthetic start symbol at code 0 of their spaces.

use vstd::prelude::*;
use crate::parser_types::nonterminal::NonTerminalTrait;
use crate::parser_types::rule::{rule_wf, rules_wf, Rule};
use crate::parser_types::terminal::TerminalTrait;
use crate::parser_types::terminal_or_nonterminal::TerminalOrNonTerminal;

verus! {

#[derive(Copy, Clone, Debug, PartialEq, Eq, Hash, Structural)]
pub enum Terminal {
    EOF,
    Identifier,
    Literal,
    LeftParenthesis,
    RightParenthesis,
    LeftBracket,
    RightBracket,
    LeftBrace,
    RightBrace,
    SizeOf,
    Typedef,
    Dot,
    Double,
    Float,
    Long,
    Arrow,
    Unsigned,
    Signed,
    Increment,
    Decrement,
    BitwiseAndEquals,
    Comma,
    Extern,
    Semicolon,
    Colon,
    LessThan,
    LessThanEquals,
    GreaterThan,
    GreaterThanEquals,
    Equals,
    EqualsEquals,
    NotEquals,
    PlusEquals,
    MinusEquals,
    MultiplyEquals,
    DivideEquals,
    BitwiseAnd,
    Union,
    Struct,
    Enum,
    Multiply,
    Char,
    Short,
    Int,
    Plus,
    Auto,
    Register,
    Static,
    Minus,
    Const,
    Restrict,
    Tilde,
    Volatile,
    Inline,
    Not,
    Case,
    DefaultCase,
    Divide,
    If,
    Else,
    Ellipsis,
    Percent,
    ExclusiveOrEquals,
    PercentEquals,
    LeftShift,
    Switch,
    Imaginary,
    Complex,
    Bool,
    RightShift,
    While,
    Void,
    Caret,
    ModEquals,
    LeftShiftEquals,
    Pipe,
    For,
    Do,
    Goto,
    LogicalAnd,
    LogicalOr,
    RightShiftEquals,
    QuestionMark,
    BitwiseOrEquals,
    Continue,
    Break,
    Return,
}

#[derive(Copy, Clone, Debug, PartialEq, Eq, Hash, Structural)]
pub enum NonTerminal {
    Start,
    PrimaryExpression,
    PostfixExpression,
    ArgumentExpressionList,
    UnaryExpression,
    Expression,
    TypeQualifierList,
    DirectDeclarator,
    Pointer,
    ParameterTypeList,
    ParameterList,
    IdentifierList,
    ParameterDeclaration,
    Enumerator,
    StructDeclarator,
    StructDeclarationList,
    StructOrUnion,
    EnumeratorList,
    StructDeclaration,
    StructDeclaratorList,
    SpecifierQualifierList,
    EnumSpecifier,
    AbstractDeclarator,
    Designation,
    BlockItemList,
    JumpStatement,
    IterationStatement,
    BlockItem,
    ExternalDeclaration,
    TranslationUnit,
    DirectAbstractDeclarator,
    SelectionStatement,
    CompoundStatement,
    DesignatorList,
    ExpressionStatement,
    Designator,
    LabeledStatement,
    Statement,
    FunctionDefinition,
    StructOrUnionSpecifier,
    Declarator,
    ShiftOperator,
    ShiftExpression,
    AdditiveOperator,
    RelationalExpression,
    EqualityExpression,
    RelationalOperator,
    EqualityOperator,
    AdditiveExpression,
    MultiplicativeExpression,
    InitializerList,
    TypeName,
    MultiplicativeOperator,
    AssignmentExpression,
    CastExpression,
    UnaryOperator,
    Initializer,
    AndExpression,
    InclusiveOrExpression,
    TypeSpecifier,
    StorageClassSpecifier,
    InitDeclaratorList,
    TypeQualifier,
    InitDeclarator,
    FunctionSpecifier,
    ExclusiveOrExpression,
    DeclarationSpecifiers,
    ConstantExpression,
    LogicalAndExpression,
    Declaration,
    LogicalOrExpression,
    AssignmentOperator,
    ConditionalExpression,
    DeclarationList,
}

/// The code of a terminal: its position in the declaration order, so that
/// `EOF` is [`crate::EOF_TERMINAL`].
pub open spec fn terminal_code_spec(t: Terminal) -> u64 {
    match t {
        Terminal::EOF => 0,
        Terminal::Identifier => 1,
        Terminal::Literal => 2,
        Terminal::LeftParenthesis => 3,
        Terminal::RightParenthesis => 4,
        Terminal::LeftBracket => 5,
        Terminal::RightBracket => 6,
        Terminal::LeftBrace => 7,
        Terminal::RightBrace => 8,
        Terminal::SizeOf => 9,
        Terminal::Typedef => 10,
        Terminal::Dot => 11,
        Terminal::Double => 12,
        Terminal::Float => 13,
        Terminal::Long => 14,
        Terminal::Arrow => 15,
        Terminal::Unsigned => 16,
        Terminal::Signed => 17,
        Terminal::Increment => 18,
        Terminal::Decrement => 19,
        Terminal::BitwiseAndEquals => 20,
        Terminal::Comma => 21,
        Terminal::Extern => 22,
        Terminal::Semicolon => 23,
        Terminal::Colon => 24,
        Terminal::LessThan => 25,
        Terminal::LessThanEquals => 26,
        Terminal::GreaterThan => 27,
        Terminal::GreaterThanEquals => 28,
        Terminal::Equals => 29,
        Terminal::EqualsEquals => 30,
        Terminal::NotEquals => 31,
        Terminal::PlusEquals => 32,
        Terminal::MinusEquals => 33,
        Terminal::MultiplyEquals => 34,
        Terminal::DivideEquals => 35,
        Terminal::BitwiseAnd => 36,
        Terminal::Union => 37,
        Terminal::Struct => 38,
        Terminal::Enum => 39,
        Terminal::Multiply => 40,
        Terminal::Char => 41,
        Terminal::Short => 42,
        Terminal::Int => 43,
        Terminal::Plus => 44,
        Terminal::Auto => 45,
        Terminal::Register => 46,
        Terminal::Static => 47,
        Terminal::Minus => 48,
        Terminal::Const => 49,
        Terminal::Restrict => 50,
        Terminal::Tilde => 51,
        Terminal::Volatile => 52,
        Terminal::Inline => 53,
        Terminal::Not => 54,
        Terminal::Case => 55,
        Terminal::DefaultCase => 56,
        Terminal::Divide => 57,
        Terminal::If => 58,
        Terminal::Else => 59,
        Terminal::Ellipsis => 60,
        Terminal::Percent => 61,
        Terminal::ExclusiveOrEquals => 62,
        Terminal::PercentEquals => 63,
        Terminal::LeftShift => 64,
        Terminal::Switch => 65,
        Terminal::Imaginary => 66,
        Terminal::Complex => 67,
        Terminal::Bool => 68,
        Terminal::RightShift => 69,
        Terminal::While => 70,
        Terminal::Void => 71,
        Terminal::Caret => 72,
        Terminal::ModEquals => 73,
        Terminal::LeftShiftEquals => 74,
        Terminal::Pipe => 75,
        Terminal::For => 76,
        Terminal::Do => 77,
        Terminal::Goto => 78,
        Terminal::LogicalAnd => 79,
        Terminal::LogicalOr => 80,
        Terminal::RightShiftEquals => 81,
        Terminal::QuestionMark => 82,
        Terminal::BitwiseOrEquals => 83,
        Terminal::Continue => 84,
        Terminal::Break => 85,
        Terminal::Return => 86,
    }
}

/// The code of a non-terminal: its position in the declaration order, so
/// that `Start` is [`crate::START_NONTERMINAL`].
pub open spec fn nonterminal_code_spec(n: NonTerminal) -> u64 {
    match n {
        NonTerminal::Start => 0,
        NonTerminal::PrimaryExpression => 1,
        NonTerminal::PostfixExpression => 2,
        NonTerminal::ArgumentExpressionList => 3,
        NonTerminal::UnaryExpression => 4,
        NonTerminal::Expression => 5,
        NonTerminal::TypeQualifierList => 6,
        NonTerminal::DirectDeclarator => 7,
        NonTerminal::Pointer => 8,
        NonTerminal::ParameterTypeList => 9,
        NonTerminal::ParameterList => 10,
        NonTerminal::IdentifierList => 11,
        NonTerminal::ParameterDeclaration => 12,
        NonTerminal::Enumerator => 13,
        NonTerminal::StructDeclarator => 14,
        NonTerminal::StructDeclarationList => 15,
        NonTerminal::StructOrUnion => 16,
        NonTerminal::EnumeratorList => 17,
        NonTerminal::StructDeclaration => 18,
        NonTerminal::StructDeclaratorList => 19,
        NonTerminal::SpecifierQualifierList => 20,
        NonTerminal::EnumSpecifier => 21,
        NonTerminal::AbstractDeclarator => 22,
        NonTerminal::Designation => 23,
        NonTerminal::BlockItemList => 24,
        NonTerminal::JumpStatement => 25,
        NonTerminal::IterationStatement => 26,
        NonTerminal::BlockItem => 27,
        NonTerminal::ExternalDeclaration => 28,
        NonTerminal::TranslationUnit => 29,
        NonTerminal::DirectAbstractDeclarator => 30,
        NonTerminal::SelectionStatement => 31,
        NonTerminal::CompoundStatement => 32,
        NonTerminal::DesignatorList => 33,
        NonTerminal::ExpressionStatement => 34,
        NonTerminal::Designator => 35,
        NonTerminal::LabeledStatement => 36,
        NonTerminal::Statement => 37,
        NonTerminal::FunctionDefinition => 38,
        NonTerminal::StructOrUnionSpecifier => 39,
        NonTerminal::Declarator => 40,
        NonTerminal::ShiftOperator => 41,
        NonTerminal::ShiftExpression => 42,
        NonTerminal::AdditiveOperator => 43,
        NonTerminal::RelationalExpression => 44,
        NonTerminal::EqualityExpression => 45,
        NonTerminal::RelationalOperator => 46,
        NonTerminal::EqualityOperator => 47,
        NonTerminal::AdditiveExpression => 48,
        NonTerminal::MultiplicativeExpression => 49,
        NonTerminal::InitializerList => 50,
        NonTerminal::TypeName => 51,
        NonTerminal::MultiplicativeOperator => 52,
        NonTerminal::AssignmentExpression => 53,
        NonTerminal::CastExpression => 54,
        NonTerminal::UnaryOperator => 55,
        NonTerminal::Initializer => 56,
        NonTerminal::AndExpression => 57,
        NonTerminal::InclusiveOrExpression => 58,
        NonTerminal::TypeSpecifier => 59,
        NonTerminal::StorageClassSpecifier => 60,
        NonTerminal::InitDeclaratorList => 61,
        NonTerminal::TypeQualifier => 62,
        NonTerminal::InitDeclarator => 63,
        NonTerminal::FunctionSpecifier => 64,
        NonTerminal::ExclusiveOrExpression => 65,
        NonTerminal::DeclarationSpecifiers => 66,
        NonTerminal::ConstantExpression => 67,
        NonTerminal::LogicalAndExpression => 68,
        NonTerminal::Declaration => 69,
        NonTerminal::LogicalOrExpression => 70,
        NonTerminal::AssignmentOperator => 71,
        NonTerminal::ConditionalExpression => 72,
        NonTerminal::DeclarationList => 73,
    }
}

impl Terminal {
    /// The terminal's code.
    pub fn code(&self) -> (r: u64)
        ensures
            r == terminal_code_spec(*self),
    {
        match self {
            Terminal::EOF => 0,
            Terminal::Identifier => 1,
            Terminal::Literal => 2,
            Terminal::LeftParenthesis => 3,
            Terminal::RightParenthesis => 4,
            Terminal::LeftBracket => 5,
            Terminal::RightBracket => 6,
            Terminal::LeftBrace => 7,
            Terminal::RightBrace => 8,
            Terminal::SizeOf => 9,
            Terminal::Typedef => 10,
            Terminal::Dot => 11,
            Terminal::Double => 12,
            Terminal::Float => 13,
            Terminal::Long => 14,
            Terminal::Arrow => 15,
            Terminal::Unsigned => 16,
            Terminal::Signed => 17,
            Terminal::Increment => 18,
            Terminal::Decrement => 19,
            Terminal::BitwiseAndEquals => 20,
            Terminal::Comma => 21,
            Terminal::Extern => 22,
            Terminal::Semicolon => 23,
            Terminal::Colon => 24,
            Terminal::LessThan => 25,
            Terminal::LessThanEquals => 26,
            Terminal::GreaterThan => 27,
            Terminal::GreaterThanEquals => 28,
            Terminal::Equals => 29,
            Terminal::EqualsEquals => 30,
            Terminal::NotEquals => 31,
            Terminal::PlusEquals => 32,
            Terminal::MinusEquals => 33,
            Terminal::MultiplyEquals => 34,
            Terminal::DivideEquals => 35,
            Terminal::BitwiseAnd => 36,
            Terminal::Union => 37,
            Terminal::Struct => 38,
            Terminal::Enum => 39,
            Terminal::Multiply => 40,
            Terminal::Char => 41,
            Terminal::Short => 42,
            Terminal::Int => 43,
            Terminal::Plus => 44,
            Terminal::Auto => 45,
            Terminal::Register => 46,
            Terminal::Static => 47,
            Terminal::Minus => 48,
            Terminal::Const => 49,
            Terminal::Restrict => 50,
            Terminal::Tilde => 51,
            Terminal::Volatile => 52,
            Terminal::Inline => 53,
            Terminal::Not => 54,
            Terminal::Case => 55,
            Terminal::DefaultCase => 56,
            Terminal::Divide => 57,
            Terminal::If => 58,
            Terminal::Else => 59,
            Terminal::Ellipsis => 60,
            Terminal::Percent => 61,
            Terminal::ExclusiveOrEquals => 62,
            Terminal::PercentEquals => 63,
            Terminal::LeftShift => 64,
            Terminal::Switch => 65,
            Terminal::Imaginary => 66,
            Terminal::Complex => 67,
            Terminal::Bool => 68,
            Terminal::RightShift => 69,
            Terminal::While => 70,
            Terminal::Void => 71,
            Terminal::Caret => 72,
            Terminal::ModEquals => 73,
            Terminal::LeftShiftEquals => 74,
            Terminal::Pipe => 75,
            Terminal::For => 76,
            Terminal::Do => 77,
            Terminal::Goto => 78,
            Terminal::LogicalAnd => 79,
            Terminal::LogicalOr => 80,
            Terminal::RightShiftEquals => 81,
            Terminal::QuestionMark => 82,
            Terminal::BitwiseOrEquals => 83,
            Terminal::Continue => 84,
            Terminal::Break => 85,
            Terminal::Return => 86,
        }
    }
}

impl NonTerminal {
    /// The non-terminal's code.
    pub fn code(&self) -> (r: u64)
        ensures
            r == nonterminal_code_spec(*self),
    {
        match self {
            NonTerminal::Start => 0,
            NonTerminal::PrimaryExpression => 1,
            NonTerminal::PostfixExpression => 2,
            NonTerminal::ArgumentExpressionList => 3,
            NonTerminal::UnaryExpression => 4,
            NonTerminal::Expression => 5,
            NonTerminal::TypeQualifierList => 6,
            NonTerminal::DirectDeclarator => 7,
            NonTerminal::Pointer => 8,
            NonTerminal::ParameterTypeList => 9,
            NonTerminal::ParameterList => 10,
            NonTerminal::IdentifierList => 11,
            NonTerminal::ParameterDeclaration => 12,
            NonTerminal::Enumerator => 13,
            NonTerminal::StructDeclarator => 14,
            NonTerminal::StructDeclarationList => 15,
            NonTerminal::StructOrUnion => 16,
            NonTerminal::EnumeratorList => 17,
            NonTerminal::StructDeclaration => 18,
            NonTerminal::StructDeclaratorList => 19,
            NonTerminal::SpecifierQualifierList => 20,
            NonTerminal::EnumSpecifier => 21,
            NonTerminal::AbstractDeclarator => 22,
            NonTerminal::Designation => 23,
            NonTerminal::BlockItemList => 24,
            NonTerminal::JumpStatement => 25,
            NonTerminal::IterationStatement => 26,
            NonTerminal::BlockItem => 27,
            NonTerminal::ExternalDeclaration => 28,
            NonTerminal::TranslationUnit => 29,
            NonTerminal::DirectAbstractDeclarator => 30,
            NonTerminal::SelectionStatement => 31,
            NonTerminal::CompoundStatement => 32,
            NonTerminal::DesignatorList => 33,
            NonTerminal::ExpressionStatement => 34,
            NonTerminal::Designator => 35,
            NonTerminal::LabeledStatement => 36,
            NonTerminal::Statement => 37,
            NonTerminal::FunctionDefinition => 38,
            NonTerminal::StructOrUnionSpecifier => 39,
            NonTerminal::Declarator => 40,
            NonTerminal::ShiftOperator => 41,
            NonTerminal::ShiftExpression => 42,
            NonTerminal::AdditiveOperator => 43,
            NonTerminal::RelationalExpression => 44,
            NonTerminal::EqualityExpression => 45,
            NonTerminal::RelationalOperator => 46,
            NonTerminal::EqualityOperator => 47,
            NonTerminal::AdditiveExpression => 48,
            NonTerminal::MultiplicativeExpression => 49,
            NonTerminal::InitializerList => 50,
            NonTerminal::TypeName => 51,
            NonTerminal::MultiplicativeOperator => 52,
            NonTerminal::AssignmentExpression => 53,
            NonTerminal::CastExpression => 54,
            NonTerminal::UnaryOperator => 55,
            NonTerminal::Initializer => 56,
            NonTerminal::AndExpression => 57,
            NonTerminal::InclusiveOrExpression => 58,
            NonTerminal::TypeSpecifier => 59,
            NonTerminal::StorageClassSpecifier => 60,
            NonTerminal::InitDeclaratorList => 61,
            NonTerminal::TypeQualifier => 62,
            NonTerminal::InitDeclarator => 63,
            NonTerminal::FunctionSpecifier => 64,
            NonTerminal::ExclusiveOrExpression => 65,
            NonTerminal::DeclarationSpecifiers => 66,
            NonTerminal::ConstantExpression => 67,
            NonTerminal::LogicalAndExpression => 68,
            NonTerminal::Declaration => 69,
            NonTerminal::LogicalOrExpression => 70,
            NonTerminal::AssignmentOperator => 71,
            NonTerminal::ConditionalExpression => 72,
            NonTerminal::DeclarationList => 73,
        }
    }
}

impl TerminalTrait for Terminal {
    open spec fn eof_spec() -> Self {
        Terminal::EOF
    }

    fn is_eof(&self) -> bool {
        *self == Terminal::EOF
    }

    fn eof() -> Self {
        Terminal::EOF
    }
}

impl NonTerminalTrait for NonTerminal {
    open spec fn start_spec() -> Self {
        NonTerminal::Start
    }

    fn is_start(&self) -> bool {
        *self == NonTerminal::Start
    }

    fn start() -> Self {
        NonTerminal::Start
    }
}

/// A terminal as a grammar symbol.
fn t(x: Terminal) -> (r: TerminalOrNonTerminal)
    ensures
        r == TerminalOrNonTerminal::Terminal(terminal_code_spec(x)),
{
    TerminalOrNonTerminal::Terminal(x.code())
}

/// A non-terminal as a grammar symbol.
fn nt(x: NonTerminal) -> (r: TerminalOrNonTerminal)
    ensures
        r == TerminalOrNonTerminal::NonTerminal(nonterminal_code_spec(x)),
{
    TerminalOrNonTerminal::NonTerminal(x.code())
}

/// Append one rule, keeping the sequence well formed.
/// No rule of the hand-written table claims the reserved start symbol:
/// that left-hand side belongs to the synthetic rule an augmented grammar
/// prepends.
pub open spec fn no_start_lhs(rules: Seq<Rule>) -> bool {
    forall|i: int| 0 <= i < rules.len() ==> (#[trigger] rules[i]).lhs != crate::START_NONTERMINAL
}

fn push_rule(rules: &mut Vec<Rule>, lhs: NonTerminal, rhs: Vec<TerminalOrNonTerminal>)
    requires
        rules_wf(old(rules)@),
        rhs@.len() >= 1,
    ensures
        rules_wf(final(rules)@),
        final(rules)@.len() == old(rules)@.len() + 1,
        forall|i: int| 0 <= i < old(rules)@.len() ==> final(rules)@[i] == old(rules)@[i],
        final(rules)@.last().lhs == nonterminal_code_spec(lhs),
        final(rules)@.last().rhs@ == rhs@,
        no_start_lhs(old(rules)@) && nonterminal_code_spec(lhs) != crate::START_NONTERMINAL
            ==> no_start_lhs(final(rules)@),
{
    let r = Rule { lhs: lhs.code(), rhs };
    proof {
        assert(rule_wf(r));
    }
    rules.push(r);
    proof {
        assert forall|i: int| 0 <= i < rules@.len() implies rule_wf(#[trigger] rules@[i]) by {
            if i < rules@.len() - 1 {
                assert(rule_wf(old(rules)@[i]));
            }
        }
        if no_start_lhs(old(rules)@) && nonterminal_code_spec(lhs) != crate::START_NONTERMINAL {
            assert forall|i: int|
                0 <= i < rules@.len() implies (#[trigger] rules@[i]).lhs
                != crate::START_NONTERMINAL by {
                if i < rules@.len() - 1 {
                    assert(old(rules)@[i].lhs != crate::START_NONTERMINAL);
                }
            }
        }
    }
}

fn c99rules_part0(rules: &mut Vec<Rule>)
    requires
        rules_wf(old(rules)@),
    ensures
        rules_wf(final(rules)@),
        final(rules)@.len() == old(rules)@.len() + 24,
        forall|i: int| 0 <= i < old(rules)@.len() ==> final(rules)@[i] == old(rules)@[i],
        no_start_lhs(old(rules)@) ==> no_start_lhs(final(rules)@),
        final(rules)@[old(rules)@.len() as int].lhs == nonterminal_code_spec(
            NonTerminal::PrimaryExpression,
        ),
        final(rules)@[old(rules)@.len() as int].rhs@ == seq![
            TerminalOrNonTerminal::Terminal(terminal_code_spec(Terminal::Identifier)),
        ],
{
    push_rule(rules, NonTerminal::PrimaryExpression, vec![t(Terminal::Identifier)]);
    proof {
        assert(rules@.last().rhs@ =~= seq![
            TerminalOrNonTerminal::Terminal(terminal_code_spec(Terminal::Identifier)),
        ]);
    }
    push_rule(rules, NonTerminal::PrimaryExpression, vec![t(Terminal::Literal)]);
    push_rule(rules, NonTerminal::PrimaryExpression, vec![t(Terminal::LeftParenthesis), nt(NonTerminal::Expression), t(Terminal::RightParenthesis)]);
    push_rule(rules, NonTerminal::PostfixExpression, vec![nt(NonTerminal::PrimaryExpression)]);
    push_rule(rules, NonTerminal::PostfixExpression, vec![nt(NonTerminal::PostfixExpression), t(Terminal::LeftBracket), nt(NonTerminal::Expression), t(Terminal::RightBracket)]);
    push_rule(rules, NonTerminal::PostfixExpression, vec![nt(NonTerminal::PostfixExpression), t(Terminal::LeftParenthesis), t(Terminal::RightParenthesis)]);
    push_rule(rules, NonTerminal::PostfixExpression, vec![nt(NonTerminal::PostfixExpression), t(Terminal::LeftParenthesis), nt(NonTerminal::ArgumentExpressionList), t(Terminal::RightParenthesis)]);
    push_rule(rules, NonTerminal::PostfixExpression, vec![nt(NonTerminal::PostfixExpression), t(Terminal::Dot), t(Terminal::Identifier)]);
    push_rule(rules, NonTerminal::PostfixExpression, vec![nt(NonTerminal::PostfixExpression), t(Terminal::Arrow), t(Terminal::Identifier)]);
    push_rule(rules, NonTerminal::PostfixExpression, vec![nt(NonTerminal::PostfixExpression), t(Terminal::Increment)]);
    push_rule(rules, NonTerminal::PostfixExpression, vec![nt(NonTerminal::PostfixExpression), t(Terminal::Decrement)]);
    push_rule(rules, NonTerminal::PostfixExpression, vec![t(Terminal::LeftParenthesis), nt(NonTerminal::TypeName), t(Terminal::RightParenthesis), t(Terminal::LeftBrace), nt(NonTerminal::InitializerList), t(Terminal::RightBrace)]);
    push_rule(rules, NonTerminal::PostfixExpression, vec![t(Terminal::LeftParenthesis), nt(NonTerminal::TypeName), t(Terminal::RightParenthesis), t(Terminal::LeftBrace), nt(NonTerminal::InitializerList), t(Terminal::Comma), t(Terminal::RightBrace)]);
    push_rule(rules, NonTerminal::ArgumentExpressionList, vec![nt(NonTerminal::AssignmentExpression)]);
    push_rule(rules, NonTerminal::ArgumentExpressionList, vec![nt(NonTerminal::ArgumentExpressionList), t(Terminal::Comma), nt(NonTerminal::AssignmentExpression)]);
    push_rule(rules, NonTerminal::UnaryExpression, vec![nt(NonTerminal::PostfixExpression)]);
    push_rule(rules, NonTerminal::UnaryExpression, vec![t(Terminal::Increment), nt(NonTerminal::UnaryExpression)]);
    push_rule(rules, NonTerminal::UnaryExpression, vec![t(Terminal::Decrement), nt(NonTerminal::UnaryExpression)]);
    push_rule(rules, NonTerminal::UnaryExpression, vec![nt(NonTerminal::UnaryOperator), nt(NonTerminal::CastExpression)]);
    push_rule(rules, NonTerminal::UnaryExpression, vec![t(Terminal::SizeOf), nt(NonTerminal::UnaryExpression)]);
    push_rule(rules, NonTerminal::UnaryExpression, vec![t(Terminal::SizeOf), t(Terminal::LeftParenthesis), nt(NonTerminal::TypeName), t(Terminal::RightParenthesis)]);
    push_rule(rules, NonTerminal::UnaryOperator, vec![t(Terminal::BitwiseAnd)]);
    push_rule(rules, NonTerminal::UnaryOperator, vec![t(Terminal::Multiply)]);
    push_rule(rules, NonTerminal::UnaryOperator, vec![t(Terminal::Plus)]);
}

fn c99rules_part1(rules: &mut Vec<Rule>)
    requires
        rules_wf(old(rules)@),
    ensures
        rules_wf(final(rules)@),
        final(rules)@.len() == old(rules)@.len() + 24,
        forall|i: int| 0 <= i < old(rules)@.len() ==> final(rules)@[i] == old(rules)@[i],
        no_start_lhs(old(rules)@) ==> no_start_lhs(final(rules)@),
{
    push_rule(rules, NonTerminal::UnaryOperator, vec![t(Terminal::Minus)]);
    push_rule(rules, NonTerminal::UnaryOperator, vec![t(Terminal::Tilde)]);
    push_rule(rules, NonTerminal::UnaryOperator, vec![t(Terminal::Not)]);
    push_rule(rules, NonTerminal::CastExpression, vec![nt(NonTerminal::UnaryExpression)]);
    push_rule(rules, NonTerminal::CastExpression, vec![t(Terminal::LeftParenthesis), nt(NonTerminal::TypeName), t(Terminal::RightParenthesis), nt(NonTerminal::CastExpression)]);
    push_rule(rules, NonTerminal::MultiplicativeExpression, vec![nt(NonTerminal::CastExpression)]);
    push_rule(rules, NonTerminal::MultiplicativeExpression, vec![nt(NonTerminal::MultiplicativeExpression), nt(NonTerminal::MultiplicativeOperator), nt(NonTerminal::CastExpression)]);
    push_rule(rules, NonTerminal::MultiplicativeOperator, vec![t(Terminal::Multiply)]);
    push_rule(rules, NonTerminal::MultiplicativeOperator, vec![t(Terminal::Divide)]);
    push_rule(rules, NonTerminal::MultiplicativeOperator, vec![t(Terminal::Percent)]);
    push_rule(rules, NonTerminal::AdditiveExpression, vec![nt(NonTerminal::MultiplicativeExpression)]);
    push_rule(rules, NonTerminal::AdditiveExpression, vec![nt(NonTerminal::AdditiveExpression), nt(NonTerminal::AdditiveOperator), nt(NonTerminal::MultiplicativeExpression)]);
    push_rule(rules, NonTerminal::AdditiveOperator, vec![t(Terminal::Plus)]);
    push_rule(rules, NonTerminal::AdditiveOperator, vec![t(Terminal::Minus)]);
    push_rule(rules, NonTerminal::ShiftExpression, vec![nt(NonTerminal::AdditiveExpression)]);
    push_rule(rules, NonTerminal::ShiftExpression, vec![nt(NonTerminal::ShiftExpression), nt(NonTerminal::ShiftOperator), nt(NonTerminal::AdditiveExpression)]);
    push_rule(rules, NonTerminal::ShiftOperator, vec![t(Terminal::LeftShift)]);
    push_rule(rules, NonTerminal::ShiftOperator, vec![t(Terminal::RightShift)]);
    push_rule(rules, NonTerminal::RelationalExpression, vec![nt(NonTerminal::ShiftExpression)]);
    push_rule(rules, NonTerminal::RelationalExpression, vec![nt(NonTerminal::RelationalExpression), nt(NonTerminal::RelationalOperator), nt(NonTerminal::ShiftExpression)]);
    push_rule(rules, NonTerminal::RelationalOperator, vec![t(Terminal::LessThan)]);
    push_rule(rules, NonTerminal::RelationalOperator, vec![t(Terminal::GreaterThan)]);
    push_rule(rules, NonTerminal::RelationalOperator, vec![t(Terminal::LessThanEquals)]);
    push_rule(rules, NonTerminal::RelationalOperator, vec![t(Terminal::GreaterThanEquals)]);
}

fn c99rules_part2(rules: &mut Vec<Rule>)
    requires
        rules_wf(old(rules)@),
    ensures
        rules_wf(final(rules)@),
        final(rules)@.len() == old(rules)@.len() + 24,
        forall|i: int| 0 <= i < old(rules)@.len() ==> final(rules)@[i] == old(rules)@[i],
        no_start_lhs(old(rules)@) ==> no_start_lhs(final(rules)@),
{
    push_rule(rules, NonTerminal::EqualityExpression, vec![nt(NonTerminal::RelationalExpression)]);
    push_rule(rules, NonTerminal::EqualityExpression, vec![nt(NonTerminal::EqualityExpression), nt(NonTerminal::EqualityOperator), nt(NonTerminal::RelationalExpression)]);
    push_rule(rules, NonTerminal::EqualityOperator, vec![t(Terminal::EqualsEquals)]);
    push_rule(rules, NonTerminal::EqualityOperator, vec![t(Terminal::NotEquals)]);
    push_rule(rules, NonTerminal::AndExpression, vec![nt(NonTerminal::EqualityExpression)]);
    push_rule(rules, NonTerminal::AndExpression, vec![nt(NonTerminal::AndExpression), t(Terminal::BitwiseAnd), nt(NonTerminal::EqualityExpression)]);
    push_rule(rules, NonTerminal::ExclusiveOrExpression, vec![nt(NonTerminal::AndExpression)]);
    push_rule(rules, NonTerminal::ExclusiveOrExpression, vec![nt(NonTerminal::ExclusiveOrExpression), t(Terminal::Caret), nt(NonTerminal::AndExpression)]);
    push_rule(rules, NonTerminal::InclusiveOrExpression, vec![nt(NonTerminal::ExclusiveOrExpression)]);
    push_rule(rules, NonTerminal::InclusiveOrExpression, vec![nt(NonTerminal::InclusiveOrExpression), t(Terminal::Pipe), nt(NonTerminal::ExclusiveOrExpression)]);
    push_rule(rules, NonTerminal::LogicalAndExpression, vec![nt(NonTerminal::InclusiveOrExpression)]);
    push_rule(rules, NonTerminal::LogicalAndExpression, vec![nt(NonTerminal::LogicalAndExpression), t(Terminal::LogicalAnd), nt(NonTerminal::InclusiveOrExpression)]);
    push_rule(rules, NonTerminal::LogicalOrExpression, vec![nt(NonTerminal::LogicalAndExpression)]);
    push_rule(rules, NonTerminal::LogicalOrExpression, vec![nt(NonTerminal::LogicalOrExpression), t(Terminal::LogicalOr), nt(NonTerminal::LogicalAndExpression)]);
    push_rule(rules, NonTerminal::ConditionalExpression, vec![nt(NonTerminal::LogicalOrExpression)]);
    push_rule(rules, NonTerminal::ConditionalExpression, vec![nt(NonTerminal::LogicalOrExpression), t(Terminal::QuestionMark), nt(NonTerminal::Expression), t(Terminal::Colon), nt(NonTerminal::ConditionalExpression)]);
    push_rule(rules, NonTerminal::AssignmentExpression, vec![nt(NonTerminal::ConditionalExpression)]);
    push_rule(rules, NonTerminal::AssignmentExpression, vec![nt(NonTerminal::UnaryExpression), nt(NonTerminal::AssignmentOperator), nt(NonTerminal::AssignmentExpression)]);
    push_rule(rules, NonTerminal::AssignmentOperator, vec![t(Terminal::Equals)]);
    push_rule(rules, NonTerminal::AssignmentOperator, vec![t(Terminal::MultiplyEquals)]);
    push_rule(rules, NonTerminal::AssignmentOperator, vec![t(Terminal::DivideEquals)]);
    push_rule(rules, NonTerminal::AssignmentOperator, vec![t(Terminal::ModEquals)]);
    push_rule(rules, NonTerminal::AssignmentOperator, vec![t(Terminal::PlusEquals)]);
    push_rule(rules, NonTerminal::AssignmentOperator, vec![t(Terminal::MinusEquals)]);
}

fn c99rules_part3(rules: &mut Vec<Rule>)
    requires
        rules_wf(old(rules)@),
    ensures
        rules_wf(final(rules)@),
        final(rules)@.len() == old(rules)@.len() + 24,
        forall|i: int| 0 <= i < old(rules)@.len() ==> final(rules)@[i] == old(rules)@[i],
        no_start_lhs(old(rules)@) ==> no_start_lhs(final(rules)@),
{
    push_rule(rules, NonTerminal::AssignmentOperator, vec![t(Terminal::LeftShiftEquals)]);
    push_rule(rules, NonTerminal::AssignmentOperator, vec![t(Terminal::RightShiftEquals)]);
    push_rule(rules, NonTerminal::AssignmentOperator, vec![t(Terminal::BitwiseAndEquals)]);
    push_rule(rules, NonTerminal::AssignmentOperator, vec![t(Terminal::ExclusiveOrEquals)]);
    push_rule(rules, NonTerminal::AssignmentOperator, vec![t(Terminal::BitwiseOrEquals)]);
    push_rule(rules, NonTerminal::Expression, vec![nt(NonTerminal::AssignmentExpression)]);
    push_rule(rules, NonTerminal::Expression, vec![nt(NonTerminal::Expression), t(Terminal::Comma), nt(NonTerminal::AssignmentExpression)]);
    push_rule(rules, NonTerminal::ConstantExpression, vec![nt(NonTerminal::ConditionalExpression)]);
    push_rule(rules, NonTerminal::Declaration, vec![nt(NonTerminal::DeclarationSpecifiers), t(Terminal::Semicolon)]);
    push_rule(rules, NonTerminal::Declaration, vec![nt(NonTerminal::DeclarationSpecifiers), nt(NonTerminal::InitDeclaratorList), t(Terminal::Semicolon)]);
    push_rule(rules, NonTerminal::DeclarationSpecifiers, vec![nt(NonTerminal::StorageClassSpecifier)]);
    push_rule(rules, NonTerminal::DeclarationSpecifiers, vec![nt(NonTerminal::StorageClassSpecifier), nt(NonTerminal::DeclarationSpecifiers)]);
    push_rule(rules, NonTerminal::DeclarationSpecifiers, vec![nt(NonTerminal::TypeSpecifier)]);
    push_rule(rules, NonTerminal::DeclarationSpecifiers, vec![nt(NonTerminal::TypeSpecifier), nt(NonTerminal::DeclarationSpecifiers)]);
    push_rule(rules, NonTerminal::DeclarationSpecifiers, vec![nt(NonTerminal::TypeQualifier)]);
    push_rule(rules, NonTerminal::DeclarationSpecifiers, vec![nt(NonTerminal::TypeQualifier), nt(NonTerminal::DeclarationSpecifiers)]);
    push_rule(rules, NonTerminal::DeclarationSpecifiers, vec![nt(NonTerminal::FunctionSpecifier)]);
    push_rule(rules, NonTerminal::DeclarationSpecifiers, vec![nt(NonTerminal::FunctionSpecifier), nt(NonTerminal::DeclarationSpecifiers)]);
    push_rule(rules, NonTerminal::InitDeclaratorList, vec![nt(NonTerminal::InitDeclarator)]);
    push_rule(rules, NonTerminal::InitDeclaratorList, vec![nt(NonTerminal::InitDeclaratorList), t(Terminal::Comma), nt(NonTerminal::InitDeclarator)]);
    push_rule(rules, NonTerminal::InitDeclarator, vec![nt(NonTerminal::Declarator)]);
    push_rule(rules, NonTerminal::InitDeclarator, vec![nt(NonTerminal::Declarator), t(Terminal::Equals), nt(NonTerminal::Initializer)]);
    push_rule(rules, NonTerminal::StorageClassSpecifier, vec![t(Terminal::Typedef)]);
    push_rule(rules, NonTerminal::StorageClassSpecifier, vec![t(Terminal::Extern)]);
}

fn c99rules_part4(rules: &mut Vec<Rule>)
    requires
        rules_wf(old(rules)@),
    ensures
        rules_wf(final(rules)@),
        final(rules)@.len() == old(rules)@.len() + 24,
        forall|i: int| 0 <= i < old(rules)@.len() ==> final(rules)@[i] == old(rules)@[i],
        no_start_lhs(old(rules)@) ==> no_start_lhs(final(rules)@),
{
    push_rule(rules, NonTerminal::StorageClassSpecifier, vec![t(Terminal::Static)]);
    push_rule(rules, NonTerminal::StorageClassSpecifier, vec![t(Terminal::Auto)]);
    push_rule(rules, NonTerminal::StorageClassSpecifier, vec![t(Terminal::Register)]);
    push_rule(rules, NonTerminal::TypeSpecifier, vec![t(Terminal::Void)]);
    push_rule(rules, NonTerminal::TypeSpecifier, vec![t(Terminal::Char)]);
    push_rule(rules, NonTerminal::TypeSpecifier, vec![t(Terminal::Short)]);
    push_rule(rules, NonTerminal::TypeSpecifier, vec![t(Terminal::Int)]);
    push_rule(rules, NonTerminal::TypeSpecifier, vec![t(Terminal::Long)]);
    push_rule(rules, NonTerminal::TypeSpecifier, vec![t(Terminal::Float)]);
    push_rule(rules, NonTerminal::TypeSpecifier, vec![t(Terminal::Double)]);
    push_rule(rules, NonTerminal::TypeSpecifier, vec![t(Terminal::Signed)]);
    push_rule(rules, NonTerminal::TypeSpecifier, vec![t(Terminal::Unsigned)]);
    push_rule(rules, NonTerminal::TypeSpecifier, vec![t(Terminal::Bool)]);
    push_rule(rules, NonTerminal::TypeSpecifier, vec![t(Terminal::Complex)]);
    push_rule(rules, NonTerminal::TypeSpecifier, vec![t(Terminal::Imaginary)]);
    push_rule(rules, NonTerminal::TypeSpecifier, vec![nt(NonTerminal::StructOrUnionSpecifier)]);
    push_rule(rules, NonTerminal::TypeSpecifier, vec![nt(NonTerminal::EnumSpecifier)]);
    push_rule(rules, NonTerminal::StructOrUnionSpecifier, vec![nt(NonTerminal::StructOrUnion), t(Terminal::Identifier), t(Terminal::LeftBrace), nt(NonTerminal::StructDeclarationList), t(Terminal::RightBrace)]);
    push_rule(rules, NonTerminal::StructOrUnionSpecifier, vec![nt(NonTerminal::StructOrUnion), t(Terminal::LeftBrace), nt(NonTerminal::StructDeclarationList), t(Terminal::RightBrace)]);
    push_rule(rules, NonTerminal::StructOrUnionSpecifier, vec![nt(NonTerminal::StructOrUnion), t(Terminal::Identifier)]);
    push_rule(rules, NonTerminal::StructOrUnion, vec![t(Terminal::Struct)]);
    push_rule(rules, NonTerminal::StructOrUnion, vec![t(Terminal::Union)]);
    push_rule(rules, NonTerminal::StructDeclarationList, vec![nt(NonTerminal::StructDeclaration)]);
    push_rule(rules, NonTerminal::StructDeclarationList, vec![nt(NonTerminal::StructDeclarationList), nt(NonTerminal::StructDeclaration)]);
}

fn c99rules_part5(rules: &mut Vec<Rule>)
    requires
        rules_wf(old(rules)@),
    ensures
        rules_wf(final(rules)@),
        final(rules)@.len() == old(rules)@.len() + 24,
        forall|i: int| 0 <= i < old(rules)@.len() ==> final(rules)@[i] == old(rules)@[i],
        no_start_lhs(old(rules)@) ==> no_start_lhs(final(rules)@),
{
    push_rule(rules, NonTerminal::StructDeclaration, vec![nt(NonTerminal::SpecifierQualifierList), nt(NonTerminal::StructDeclaratorList), t(Terminal::Semicolon)]);
    push_rule(rules, NonTerminal::SpecifierQualifierList, vec![nt(NonTerminal::TypeSpecifier), nt(NonTerminal::SpecifierQualifierList)]);
    push_rule(rules, NonTerminal::SpecifierQualifierList, vec![nt(NonTerminal::TypeSpecifier)]);
    push_rule(rules, NonTerminal::SpecifierQualifierList, vec![nt(NonTerminal::TypeQualifier), nt(NonTerminal::SpecifierQualifierList)]);
    push_rule(rules, NonTerminal::SpecifierQualifierList, vec![nt(NonTerminal::TypeQualifier)]);
    push_rule(rules, NonTerminal::StructDeclaratorList, vec![nt(NonTerminal::StructDeclarator)]);
    push_rule(rules, NonTerminal::StructDeclaratorList, vec![nt(NonTerminal::StructDeclaratorList), t(Terminal::Comma), nt(NonTerminal::StructDeclarator)]);
    push_rule(rules, NonTerminal::StructDeclarator, vec![nt(NonTerminal::Declarator)]);
    push_rule(rules, NonTerminal::StructDeclarator, vec![t(Terminal::Colon), nt(NonTerminal::ConstantExpression)]);
    push_rule(rules, NonTerminal::StructDeclarator, vec![nt(NonTerminal::Declarator), t(Terminal::Colon), nt(NonTerminal::ConstantExpression)]);
    push_rule(rules, NonTerminal::EnumSpecifier, vec![t(Terminal::Enum), t(Terminal::LeftBrace), nt(NonTerminal::EnumeratorList), t(Terminal::RightBrace)]);
    push_rule(rules, NonTerminal::EnumSpecifier, vec![t(Terminal::Enum), t(Terminal::Identifier), t(Terminal::LeftBrace), nt(NonTerminal::EnumeratorList), t(Terminal::RightBrace)]);
    push_rule(rules, NonTerminal::EnumSpecifier, vec![t(Terminal::Enum), t(Terminal::LeftBrace), nt(NonTerminal::EnumeratorList), t(Terminal::Comma), t(Terminal::RightBrace)]);
    push_rule(rules, NonTerminal::EnumSpecifier, vec![t(Terminal::Enum), t(Terminal::Identifier), t(Terminal::LeftBrace), nt(NonTerminal::EnumeratorList), t(Terminal::Comma), t(Terminal::RightBrace)]);
    push_rule(rules, NonTerminal::EnumSpecifier, vec![t(Terminal::Enum), t(Terminal::Identifier)]);
    push_rule(rules, NonTerminal::EnumeratorList, vec![nt(NonTerminal::Enumerator)]);
    push_rule(rules, NonTerminal::EnumeratorList, vec![nt(NonTerminal::EnumeratorList), t(Terminal::Comma), nt(NonTerminal::Enumerator)]);
    push_rule(rules, NonTerminal::Enumerator, vec![t(Terminal::Identifier)]);
    push_rule(rules, NonTerminal::Enumerator, vec![t(Terminal::Identifier), t(Terminal::Equals), nt(NonTerminal::ConstantExpression)]);
    push_rule(rules, NonTerminal::TypeQualifier, vec![t(Terminal::Const)]);
    push_rule(rules, NonTerminal::TypeQualifier, vec![t(Terminal::Restrict)]);
    push_rule(rules, NonTerminal::TypeQualifier, vec![t(Terminal::Volatile)]);
    push_rule(rules, NonTerminal::FunctionSpecifier, vec![t(Terminal::Inline)]);
    push_rule(rules, NonTerminal::Declarator, vec![nt(NonTerminal::Pointer), nt(NonTerminal::DirectDeclarator)]);
}

fn c99rules_part6(rules: &mut Vec<Rule>)
    requires
        rules_wf(old(rules)@),
    ensures
        rules_wf(final(rules)@),
        final(rules)@.len() == old(rules)@.len() + 24,
        forall|i: int| 0 <= i < old(rules)@.len() ==> final(rules)@[i] == old(rules)@[i],
        no_start_lhs(old(rules)@) ==> no_start_lhs(final(rules)@),
{
    push_rule(rules, NonTerminal::Declarator, vec![nt(NonTerminal::DirectDeclarator)]);
    push_rule(rules, NonTerminal::DirectDeclarator, vec![t(Terminal::Identifier)]);
    push_rule(rules, NonTerminal::DirectDeclarator, vec![t(Terminal::LeftParenthesis), nt(NonTerminal::Declarator), t(Terminal::RightParenthesis)]);
    push_rule(rules, NonTerminal::DirectDeclarator, vec![nt(NonTerminal::DirectDeclarator), t(Terminal::LeftBracket), nt(NonTerminal::TypeQualifierList), nt(NonTerminal::AssignmentExpression), t(Terminal::RightBracket)]);
    push_rule(rules, NonTerminal::DirectDeclarator, vec![nt(NonTerminal::DirectDeclarator), t(Terminal::LeftBracket), nt(NonTerminal::TypeQualifierList), t(Terminal::RightBracket)]);
    push_rule(rules, NonTerminal::DirectDeclarator, vec![nt(NonTerminal::DirectDeclarator), t(Terminal::LeftBracket), nt(NonTerminal::AssignmentExpression), t(Terminal::RightBracket)]);
    push_rule(rules, NonTerminal::DirectDeclarator, vec![nt(NonTerminal::DirectDeclarator), t(Terminal::LeftBracket), t(Terminal::Static), nt(NonTerminal::TypeQualifierList), nt(NonTerminal::AssignmentExpression), t(Terminal::RightBracket)]);
    push_rule(rules, NonTerminal::DirectDeclarator, vec![nt(NonTerminal::DirectDeclarator), t(Terminal::LeftBracket), nt(NonTerminal::TypeQualifierList), t(Terminal::Static), nt(NonTerminal::AssignmentExpression), t(Terminal::RightBracket)]);
    push_rule(rules, NonTerminal::DirectDeclarator, vec![nt(NonTerminal::DirectDeclarator), t(Terminal::LeftBracket), nt(NonTerminal::TypeQualifierList), t(Terminal::Multiply), t(Terminal::RightBracket)]);
    push_rule(rules, NonTerminal::DirectDeclarator, vec![nt(NonTerminal::DirectDeclarator), t(Terminal::LeftBracket), t(Terminal::Multiply), t(Terminal::RightBracket)]);
    push_rule(rules, NonTerminal::DirectDeclarator, vec![nt(NonTerminal::DirectDeclarator), t(Terminal::LeftBracket), t(Terminal::RightBracket)]);
    push_rule(rules, NonTerminal::DirectDeclarator, vec![nt(NonTerminal::DirectDeclarator), t(Terminal::LeftParenthesis), nt(NonTerminal::ParameterTypeList), t(Terminal::RightParenthesis)]);
    push_rule(rules, NonTerminal::DirectDeclarator, vec![nt(NonTerminal::DirectDeclarator), t(Terminal::LeftParenthesis), nt(NonTerminal::IdentifierList), t(Terminal::RightParenthesis)]);
    push_rule(rules, NonTerminal::DirectDeclarator, vec![nt(NonTerminal::DirectDeclarator), t(Terminal::LeftParenthesis), t(Terminal::RightParenthesis)]);
    push_rule(rules, NonTerminal::Pointer, vec![t(Terminal::Multiply)]);
    push_rule(rules, NonTerminal::Pointer, vec![t(Terminal::Multiply), nt(NonTerminal::TypeQualifierList)]);
    push_rule(rules, NonTerminal::Pointer, vec![t(Terminal::Multiply), nt(NonTerminal::Pointer)]);
    push_rule(rules, NonTerminal::Pointer, vec![t(Terminal::Multiply), nt(NonTerminal::TypeQualifierList), nt(NonTerminal::Pointer)]);
    push_rule(rules, NonTerminal::TypeQualifierList, vec![nt(NonTerminal::TypeQualifier)]);
    push_rule(rules, NonTerminal::TypeQualifierList, vec![nt(NonTerminal::TypeQualifierList), nt(NonTerminal::TypeQualifier)]);
    push_rule(rules, NonTerminal::ParameterTypeList, vec![nt(NonTerminal::ParameterList)]);
    push_rule(rules, NonTerminal::ParameterTypeList, vec![nt(NonTerminal::ParameterList), t(Terminal::Comma), t(Terminal::Ellipsis)]);
    push_rule(rules, NonTerminal::ParameterList, vec![nt(NonTerminal::ParameterDeclaration)]);
    push_rule(rules, NonTerminal::ParameterList, vec![nt(NonTerminal::ParameterList), t(Terminal::Comma), nt(NonTerminal::ParameterDeclaration)]);
}

fn c99rules_part7(rules: &mut Vec<Rule>)
    requires
        rules_wf(old(rules)@),
    ensures
        rules_wf(final(rules)@),
        final(rules)@.len() == old(rules)@.len() + 24,
        forall|i: int| 0 <= i < old(rules)@.len() ==> final(rules)@[i] == old(rules)@[i],
        no_start_lhs(old(rules)@) ==> no_start_lhs(final(rules)@),
{
    push_rule(rules, NonTerminal::ParameterDeclaration, vec![nt(NonTerminal::DeclarationSpecifiers), nt(NonTerminal::Declarator)]);
    push_rule(rules, NonTerminal::ParameterDeclaration, vec![nt(NonTerminal::DeclarationSpecifiers), nt(NonTerminal::AbstractDeclarator)]);
    push_rule(rules, NonTerminal::ParameterDeclaration, vec![nt(NonTerminal::DeclarationSpecifiers)]);
    push_rule(rules, NonTerminal::IdentifierList, vec![t(Terminal::Identifier)]);
    push_rule(rules, NonTerminal::IdentifierList, vec![nt(NonTerminal::IdentifierList), t(Terminal::Comma), t(Terminal::Identifier)]);
    push_rule(rules, NonTerminal::TypeName, vec![nt(NonTerminal::SpecifierQualifierList)]);
    push_rule(rules, NonTerminal::TypeName, vec![nt(NonTerminal::SpecifierQualifierList), nt(NonTerminal::AbstractDeclarator)]);
    push_rule(rules, NonTerminal::AbstractDeclarator, vec![nt(NonTerminal::Pointer)]);
    push_rule(rules, NonTerminal::AbstractDeclarator, vec![nt(NonTerminal::DirectAbstractDeclarator)]);
    push_rule(rules, NonTerminal::AbstractDeclarator, vec![nt(NonTerminal::Pointer), nt(NonTerminal::DirectAbstractDeclarator)]);
    push_rule(rules, NonTerminal::DirectAbstractDeclarator, vec![t(Terminal::LeftParenthesis), nt(NonTerminal::AbstractDeclarator), t(Terminal::RightParenthesis)]);
    push_rule(rules, NonTerminal::DirectAbstractDeclarator, vec![t(Terminal::LeftBracket), t(Terminal::RightBracket)]);
    push_rule(rules, NonTerminal::DirectAbstractDeclarator, vec![t(Terminal::LeftBracket), nt(NonTerminal::AssignmentExpression), t(Terminal::RightBracket)]);
    push_rule(rules, NonTerminal::DirectAbstractDeclarator, vec![nt(NonTerminal::DirectAbstractDeclarator), t(Terminal::LeftBracket), t(Terminal::RightBracket)]);
    push_rule(rules, NonTerminal::DirectAbstractDeclarator, vec![nt(NonTerminal::DirectAbstractDeclarator), t(Terminal::LeftBracket), nt(NonTerminal::AssignmentExpression), t(Terminal::RightBracket)]);
    push_rule(rules, NonTerminal::DirectAbstractDeclarator, vec![t(Terminal::LeftBracket), t(Terminal::Multiply), t(Terminal::RightBracket)]);
    push_rule(rules, NonTerminal::DirectAbstractDeclarator, vec![nt(NonTerminal::DirectAbstractDeclarator), t(Terminal::LeftBracket), t(Terminal::Multiply), t(Terminal::RightBracket)]);
    push_rule(rules, NonTerminal::DirectAbstractDeclarator, vec![t(Terminal::LeftParenthesis), t(Terminal::RightParenthesis)]);
    push_rule(rules, NonTerminal::DirectAbstractDeclarator, vec![t(Terminal::LeftParenthesis), nt(NonTerminal::ParameterTypeList), t(Terminal::RightParenthesis)]);
    push_rule(rules, NonTerminal::DirectAbstractDeclarator, vec![nt(NonTerminal::DirectAbstractDeclarator), t(Terminal::LeftParenthesis), t(Terminal::RightParenthesis)]);
    push_rule(rules, NonTerminal::DirectAbstractDeclarator, vec![nt(NonTerminal::DirectAbstractDeclarator), t(Terminal::LeftParenthesis), nt(NonTerminal::ParameterTypeList), t(Terminal::RightParenthesis)]);
    push_rule(rules, NonTerminal::Initializer, vec![nt(NonTerminal::AssignmentExpression)]);
    push_rule(rules, NonTerminal::Initializer, vec![t(Terminal::LeftBrace), nt(NonTerminal::InitializerList), t(Terminal::RightBrace)]);
    push_rule(rules, NonTerminal::Initializer, vec![t(Terminal::LeftBrace), nt(NonTerminal::InitializerList), t(Terminal::Comma), t(Terminal::RightBrace)]);
}

fn c99rules_part8(rules: &mut Vec<Rule>)
    requires
        rules_wf(old(rules)@),
    ensures
        rules_wf(final(rules)@),
        final(rules)@.len() == old(rules)@.len() + 24,
        forall|i: int| 0 <= i < old(rules)@.len() ==> final(rules)@[i] == old(rules)@[i],
        no_start_lhs(old(rules)@) ==> no_start_lhs(final(rules)@),
{
    push_rule(rules, NonTerminal::InitializerList, vec![nt(NonTerminal::Initializer)]);
    push_rule(rules, NonTerminal::InitializerList, vec![nt(NonTerminal::Designation), nt(NonTerminal::Initializer)]);
    push_rule(rules, NonTerminal::InitializerList, vec![nt(NonTerminal::InitializerList), t(Terminal::Comma), nt(NonTerminal::Initializer)]);
    push_rule(rules, NonTerminal::InitializerList, vec![nt(NonTerminal::InitializerList), t(Terminal::Comma), nt(NonTerminal::Designation), nt(NonTerminal::Initializer)]);
    push_rule(rules, NonTerminal::Designation, vec![nt(NonTerminal::DesignatorList), t(Terminal::Equals)]);
    push_rule(rules, NonTerminal::DesignatorList, vec![nt(NonTerminal::Designator)]);
    push_rule(rules, NonTerminal::DesignatorList, vec![nt(NonTerminal::DesignatorList), nt(NonTerminal::Designator)]);
    push_rule(rules, NonTerminal::Designator, vec![t(Terminal::LeftBracket), nt(NonTerminal::ConstantExpression), t(Terminal::RightBracket)]);
    push_rule(rules, NonTerminal::Designator, vec![t(Terminal::Dot), t(Terminal::Identifier)]);
    push_rule(rules, NonTerminal::Statement, vec![nt(NonTerminal::LabeledStatement)]);
    push_rule(rules, NonTerminal::Statement, vec![nt(NonTerminal::CompoundStatement)]);
    push_rule(rules, NonTerminal::Statement, vec![nt(NonTerminal::ExpressionStatement)]);
    push_rule(rules, NonTerminal::Statement, vec![nt(NonTerminal::SelectionStatement)]);
    push_rule(rules, NonTerminal::Statement, vec![nt(NonTerminal::IterationStatement)]);
    push_rule(rules, NonTerminal::Statement, vec![nt(NonTerminal::JumpStatement)]);
    push_rule(rules, NonTerminal::LabeledStatement, vec![t(Terminal::Identifier), t(Terminal::Colon), nt(NonTerminal::Statement)]);
    push_rule(rules, NonTerminal::LabeledStatement, vec![t(Terminal::Case), nt(NonTerminal::ConstantExpression), t(Terminal::Colon), nt(NonTerminal::Statement)]);
    push_rule(rules, NonTerminal::LabeledStatement, vec![t(Terminal::DefaultCase), t(Terminal::Colon), nt(NonTerminal::Statement)]);
    push_rule(rules, NonTerminal::CompoundStatement, vec![t(Terminal::LeftBrace), t(Terminal::RightBrace)]);
    push_rule(rules, NonTerminal::CompoundStatement, vec![t(Terminal::LeftBrace), nt(NonTerminal::BlockItemList), t(Terminal::RightBrace)]);
    push_rule(rules, NonTerminal::BlockItemList, vec![nt(NonTerminal::BlockItem)]);
    push_rule(rules, NonTerminal::BlockItemList, vec![nt(NonTerminal::BlockItemList), nt(NonTerminal::BlockItem)]);
    push_rule(rules, NonTerminal::BlockItem, vec![nt(NonTerminal::Declaration)]);
    push_rule(rules, NonTerminal::BlockItem, vec![nt(NonTerminal::Statement)]);
}

fn c99rules_part9(rules: &mut Vec<Rule>)
    requires
        rules_wf(old(rules)@),
    ensures
        rules_wf(final(rules)@),
        final(rules)@.len() == old(rules)@.len() + 24,
        forall|i: int| 0 <= i < old(rules)@.len() ==> final(rules)@[i] == old(rules)@[i],
        no_start_lhs(old(rules)@) ==> no_start_lhs(final(rules)@),
{
    push_rule(rules, NonTerminal::ExpressionStatement, vec![t(Terminal::Semicolon)]);
    push_rule(rules, NonTerminal::ExpressionStatement, vec![nt(NonTerminal::Expression), t(Terminal::Semicolon)]);
    push_rule(rules, NonTerminal::SelectionStatement, vec![t(Terminal::If), t(Terminal::LeftParenthesis), nt(NonTerminal::Expression), t(Terminal::RightParenthesis), nt(NonTerminal::Statement)]);
    push_rule(rules, NonTerminal::SelectionStatement, vec![t(Terminal::If), t(Terminal::LeftParenthesis), nt(NonTerminal::Expression), t(Terminal::RightParenthesis), nt(NonTerminal::Statement), t(Terminal::Else), nt(NonTerminal::Statement)]);
    push_rule(rules, NonTerminal::SelectionStatement, vec![t(Terminal::Switch), t(Terminal::LeftParenthesis), nt(NonTerminal::Expression), t(Terminal::RightParenthesis), nt(NonTerminal::Statement)]);
    push_rule(rules, NonTerminal::IterationStatement, vec![t(Terminal::While), t(Terminal::LeftParenthesis), nt(NonTerminal::Expression), t(Terminal::RightParenthesis), nt(NonTerminal::Statement)]);
    push_rule(rules, NonTerminal::IterationStatement, vec![t(Terminal::Do), nt(NonTerminal::Statement), t(Terminal::While), t(Terminal::LeftParenthesis), nt(NonTerminal::Expression), t(Terminal::RightParenthesis), t(Terminal::Semicolon)]);
    push_rule(rules, NonTerminal::IterationStatement, vec![t(Terminal::For), t(Terminal::LeftParenthesis), nt(NonTerminal::ExpressionStatement), nt(NonTerminal::ExpressionStatement), t(Terminal::RightParenthesis), nt(NonTerminal::Statement)]);
    push_rule(rules, NonTerminal::IterationStatement, vec![t(Terminal::For), t(Terminal::LeftParenthesis), nt(NonTerminal::ExpressionStatement), nt(NonTerminal::ExpressionStatement), nt(NonTerminal::Expression), t(Terminal::RightParenthesis), nt(NonTerminal::Statement)]);
    push_rule(rules, NonTerminal::IterationStatement, vec![t(Terminal::For), t(Terminal::LeftParenthesis), nt(NonTerminal::Declaration), nt(NonTerminal::ExpressionStatement), t(Terminal::RightParenthesis), nt(NonTerminal::Statement)]);
    push_rule(rules, NonTerminal::IterationStatement, vec![t(Terminal::For), t(Terminal::LeftParenthesis), nt(NonTerminal::Declaration), nt(NonTerminal::ExpressionStatement), nt(NonTerminal::Expression), t(Terminal::RightParenthesis), nt(NonTerminal::Statement)]);
    push_rule(rules, NonTerminal::JumpStatement, vec![t(Terminal::Goto), t(Terminal::Identifier), t(Terminal::Semicolon)]);
    push_rule(rules, NonTerminal::JumpStatement, vec![t(Terminal::Continue), t(Terminal::Semicolon)]);
    push_rule(rules, NonTerminal::JumpStatement, vec![t(Terminal::Break), t(Terminal::Semicolon)]);
    push_rule(rules, NonTerminal::JumpStatement, vec![t(Terminal::Return), t(Terminal::Semicolon)]);
    push_rule(rules, NonTerminal::JumpStatement, vec![t(Terminal::Return), nt(NonTerminal::Expression), t(Terminal::Semicolon)]);
    push_rule(rules, NonTerminal::TranslationUnit, vec![nt(NonTerminal::ExternalDeclaration)]);
    push_rule(rules, NonTerminal::TranslationUnit, vec![nt(NonTerminal::TranslationUnit), nt(NonTerminal::ExternalDeclaration)]);
    push_rule(rules, NonTerminal::ExternalDeclaration, vec![nt(NonTerminal::FunctionDefinition)]);
    push_rule(rules, NonTerminal::ExternalDeclaration, vec![nt(NonTerminal::Declaration)]);
    push_rule(rules, NonTerminal::FunctionDefinition, vec![nt(NonTerminal::DeclarationSpecifiers), nt(NonTerminal::Declarator), nt(NonTerminal::DeclarationList), nt(NonTerminal::CompoundStatement)]);
    push_rule(rules, NonTerminal::FunctionDefinition, vec![nt(NonTerminal::DeclarationSpecifiers), nt(NonTerminal::Declarator), nt(NonTerminal::CompoundStatement)]);
    push_rule(rules, NonTerminal::DeclarationList, vec![nt(NonTerminal::Declaration)]);
    push_rule(rules, NonTerminal::DeclarationList, vec![nt(NonTerminal::DeclarationList), nt(NonTerminal::Declaration)]);
}

/// The rule table of the C99-subset grammar, in its fixed order: rule
/// indices into this sequence are the identities every later stage works
/// with, so the order must never change.  The first rule is pinned —
/// PrimaryExpression derives a lone Identifier — and no rule claims the
/// reserved start symbol, which the augmented grammar's synthetic rule owns.
pub fn c99rules() -> (r: Vec<Rule>)
    ensures
        rules_wf(r@),
        r@.len() == 240,
        r@[0].lhs == nonterminal_code_spec(NonTerminal::PrimaryExpression),
        r@[0].rhs@ == seq![
            TerminalOrNonTerminal::Terminal(terminal_code_spec(Terminal::Identifier)),
        ],
        no_start_lhs(r@),
{
    let mut rules: Vec<Rule> = Vec::new();
    c99rules_part0(&mut rules);
    c99rules_part1(&mut rules);
    c99rules_part2(&mut rules);
    c99rules_part3(&mut rules);
    c99rules_part4(&mut rules);
    c99rules_part5(&mut rules);
    c99rules_part6(&mut rules);
    c99rules_part7(&mut rules);
    c99rules_part8(&mut rules);
    c99rules_part9(&mut rules);
    rules
}

} // verus!

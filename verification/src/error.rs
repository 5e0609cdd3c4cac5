//! The errors of the calculator: an input that is no expression, and an
//! expression that has no value.

use vstd::prelude::*;
use vstd::string::StringExecFns;
use crate::ast::Op;
use crate::text::{append_decimal, decimal_text};

verus! {

/// What the grammar allows at the place where parsing stopped.
#[derive(Debug, Clone, Copy, PartialEq, Eq, Structural)]
pub enum Expected {
    /// A number, `(` or a unary `-`.
    Operand,
    /// A number or `(`: the operand of a unary `-`.
    Primary,
    /// A binary operator or `)`.
    OperatorOrClose,
    /// A binary operator or the end of the input.
    OperatorOrEnd,
}

/// What stands in the input at the place where parsing stopped.
#[derive(Debug, Clone, Copy, PartialEq, Eq, Structural)]
pub enum Found {
    EndOfInput,
    Number,
    Operator(Op),
    OpenParen,
    CloseParen,
    /// A byte that no token of the grammar starts with.
    Other,
}

/// An input that does not match the grammar.
#[derive(Debug, Clone, Copy, PartialEq, Eq)]
pub struct SyntaxError {
    /// The byte offset of the token that is out of place, or the length of
    /// the input where the input ended too early.
    pub position: usize,
    pub expected: Expected,
    pub found: Found,
}

/// The mathematical model of a [`SyntaxError`].
pub struct SyntaxErrorView {
    pub position: nat,
    pub expected: Expected,
    pub found: Found,
}

impl View for SyntaxError {
    type V = SyntaxErrorView;

    open spec fn view(&self) -> SyntaxErrorView {
        SyntaxErrorView {
            position: self.position as nat,
            expected: self.expected,
            found: self.found,
        }
    }
}

/// The error of the calculator.
#[derive(Debug, PartialEq, Eq)]
pub enum CalculatorError {
    /// The input is no expression of the grammar.
    ParseError(SyntaxError),
    /// The expression has no 64-bit value; the text says why.
    EvalError(String),
}

impl Clone for CalculatorError {
    fn clone(&self) -> (res: Self)
        ensures
            res@ == self@,
    {
        match self {
            CalculatorError::ParseError(e) => CalculatorError::ParseError(*e),
            CalculatorError::EvalError(text) => CalculatorError::EvalError(text.clone()),
        }
    }
}

/// The mathematical model of a [`CalculatorError`].
pub enum CalculatorErrorView {
    ParseError(SyntaxErrorView),
    EvalError(Seq<char>),
}

impl View for CalculatorError {
    type V = CalculatorErrorView;

    open spec fn view(&self) -> CalculatorErrorView {
        match self {
            CalculatorError::ParseError(e) => CalculatorErrorView::ParseError(e@),
            CalculatorError::EvalError(text) => CalculatorErrorView::EvalError(text@),
        }
    }
}

/// A result with its error taken as a mathematical value.
pub open spec fn outcome<T>(r: Result<T, CalculatorError>) -> Result<T, CalculatorErrorView> {
    match r {
        Ok(v) => Ok(v),
        Err(e) => Err(e@),
    }
}

/// The words for what the grammar allows at a place.
pub open spec fn expected_text(expected: Expected) -> Seq<char> {
    match expected {
        Expected::Operand => "a number, '(' or '-'"@,
        Expected::Primary => "a number or '('"@,
        Expected::OperatorOrClose => "an operator or ')'"@,
        Expected::OperatorOrEnd => "an operator or the end of the input"@,
    }
}

/// The words for what stands at a place.
pub open spec fn found_text(found: Found) -> Seq<char> {
    match found {
        Found::EndOfInput => "the end of the input"@,
        Found::Number => "a number"@,
        Found::Operator(Op::Add) => "'+'"@,
        Found::Operator(Op::Subtract) => "'-'"@,
        Found::Operator(Op::Multiply) => "'*'"@,
        Found::Operator(Op::Divide) => "'/'"@,
        Found::Operator(Op::Power) => "'^'"@,
        Found::OpenParen => "'('"@,
        Found::CloseParen => "')'"@,
        Found::Other => "an unexpected character"@,
    }
}

/// The description of a syntax error: what was expected, what was found, and where.
pub open spec fn syntax_text(e: SyntaxErrorView) -> Seq<char> {
    "expected "@ + expected_text(e.expected) + ", found "@ + found_text(e.found) + " at byte "@
        + decimal_text(e.position)
}

/// The text of a calculator error: a heading that tells the two kinds apart, then the details.
pub open spec fn error_text(e: CalculatorErrorView) -> Seq<char> {
    match e {
        CalculatorErrorView::ParseError(s) => "Помилка парсингу: "@ + syntax_text(s),
        CalculatorErrorView::EvalError(text) => "Помилка обчислення: "@ + text,
    }
}

impl SyntaxError {
    /// A description for the user: what was expected, what was found, and where.
    pub fn description(&self) -> (text: String)
        ensures
            text@ == syntax_text(self@),
    {
        let expected = match self.expected {
            Expected::Operand => "a number, '(' or '-'",
            Expected::Primary => "a number or '('",
            Expected::OperatorOrClose => "an operator or ')'",
            Expected::OperatorOrEnd => "an operator or the end of the input",
        };
        let found = match self.found {
            Found::EndOfInput => "the end of the input",
            Found::Number => "a number",
            Found::Operator(Op::Add) => "'+'",
            Found::Operator(Op::Subtract) => "'-'",
            Found::Operator(Op::Multiply) => "'*'",
            Found::Operator(Op::Divide) => "'/'",
            Found::Operator(Op::Power) => "'^'",
            Found::OpenParen => "'('",
            Found::CloseParen => "')'",
            Found::Other => "an unexpected character",
        };
        let mut text = String::from_str("expected ");
        text.append(expected);
        text.append(", found ");
        text.append(found);
        text.append(" at byte ");
        append_decimal(&mut text, self.position as u64);
        text
    }
}

impl CalculatorError {
    /// The text of the error, for the user.
    pub fn message(&self) -> (text: String)
        ensures
            text@ == error_text(self@),
    {
        match self {
            CalculatorError::ParseError(e) => {
                let mut text = String::from_str("Помилка парсингу: ");
                let details = e.description();
                text.append(details.as_str());
                text
            },
            CalculatorError::EvalError(details) => {
                let mut text = String::from_str("Помилка обчислення: ");
                text.append(details.as_str());
                text
            },
        }
    }
}

} // verus!

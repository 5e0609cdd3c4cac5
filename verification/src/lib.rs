//! An arithmetic expression calculator: a grammar for integers, `+ - * / ^`,
//! unary minus and parentheses, a builder of syntax trees and an evaluator.
//!
//! The text of an expression is read by the rules of [`grammar`] into a parse
//! tree ([`tree::Pair`]), the tree is folded into an expression
//! ([`ast::ExprAst`]), and the expression is reduced to one 64-bit signed
//! integer. Every step states what it returns over mathematical values, and
//! [`laws`] states what holds of every input: what the grammar is
//! ([`laws::law_grammar`]), that whitespace has no meaning, that a number is
//! its value, and that the canonical text of an expression is read back as
//! that expression.
//!
//! No operation wraps: a number or a result outside the 64-bit signed range
//! is an error, as a division by zero and a negative exponent are.

pub mod arith;
pub mod ast;
pub mod builder;
pub mod calculator;
pub mod canonical;
pub mod error;
pub mod eval;
pub mod grammar;
pub mod laws;
pub mod layout;
pub mod parser;
pub mod roundtrip;
pub mod shape;
pub mod spelling;
pub mod text;
pub mod tree;

pub use crate::ast::{ExprAst, Op};
pub use crate::builder::{build_ast, build_ast_from_pair, build_left_assoc, build_right_assoc};
pub use crate::calculator::parse_and_evaluate;
pub use crate::error::{CalculatorError, Expected, Found, SyntaxError};
pub use crate::parser::CalculatorParser;
pub use crate::tree::Pair;

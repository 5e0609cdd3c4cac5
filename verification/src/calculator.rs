//! The calculator: from the text of an expression to its value.

use vstd::prelude::*;
use vstd::string::StringSliceAdditionalSpecFns;
use crate::builder::{build_ast, expression_of};
use crate::error::{outcome, CalculatorError, CalculatorErrorView};
use crate::eval::{reported, value};

verus! {

/// The value of the expression that an input writes, or the first error on
/// the way: that of the grammar, that of a number, or that of the reduction.
pub open spec fn result_of(input: Seq<u8>) -> Result<i64, CalculatorErrorView> {
    match expression_of(input) {
        Ok(ast) => reported(value(ast)),
        Err(e) => Err(e),
    }
}

/// Reads `input` as an expression and reduces it to its value.
pub fn parse_and_evaluate(input: &str) -> (r: Result<i64, CalculatorError>)
    ensures
        outcome(r) == result_of(input.spec_bytes()),
{
    match build_ast(input) {
        Ok(ast) => ast.eval(),
        Err(e) => Err(e),
    }
}

} // verus!

//! From parse trees to expressions.
//!
//! `expr` and `term` fold their operands from the left, `power_term` folds
//! from the right, `factor` adds a negation where a minus stands before its
//! operand, and `primary` reads a number or passes an inner expression on.

use vstd::prelude::*;
use vstd::string::StringExecFns;
use vstd::string::StringSliceAdditionalSpecFns;
use crate::ast::{ExprAst, Op};
use crate::error::{outcome, CalculatorError, CalculatorErrorView};
use crate::grammar::{is_digit, is_number, parse_input, NINE, ZERO};
use crate::parser::CalculatorParser;
use crate::tree::{chain_models, models, Pair, PairView};

verus! {

/// The number that `digits` writes in decimal notation.
pub open spec fn digits_value(digits: Seq<u8>) -> nat
    decreases digits.len(),
{
    if digits.len() == 0 {
        0
    } else {
        digits_value(digits.drop_last()) * 10 + (digits.last() - ZERO) as nat
    }
}

/// The 64-bit value of a number, where it has one.
pub open spec fn literal(digits: Seq<u8>) -> Option<i64> {
    if is_number(digits) && digits_value(digits) <= i64::MAX {
        Some(digits_value(digits) as i64)
    } else {
        None
    }
}

/// The operands of a chain joined from the left: `((first op a) op b) ..`.
/// There is no expression where one of the operands has none.
pub open spec fn fold_left(first: Option<ExprAst>, rest: Seq<(Op, Option<ExprAst>)>) -> Option<ExprAst>
    decreases rest.len(),
{
    if rest.len() == 0 {
        first
    } else {
        match (fold_left(first, rest.drop_last()), rest.last().1) {
            (Some(lhs), Some(rhs)) => Some(
                ExprAst::BinaryOp { op: rest.last().0, lhs: Box::new(lhs), rhs: Box::new(rhs) },
            ),
            _ => None,
        }
    }
}

/// A base and its exponents joined from the right: `first ^ (a ^ (b ^ ..))`.
/// There is no expression where one of the operands has none.
pub open spec fn fold_right(first: Option<ExprAst>, rest: Seq<Option<ExprAst>>) -> Option<ExprAst>
    decreases rest.len(),
{
    if rest.len() == 0 {
        first
    } else {
        match (first, fold_right(rest.first(), rest.drop_first())) {
            (Some(lhs), Some(rhs)) => Some(
                ExprAst::BinaryOp { op: Op::Power, lhs: Box::new(lhs), rhs: Box::new(rhs) },
            ),
            _ => None,
        }
    }
}

/// The expression of a parse tree, or `None` where one of its numbers has no
/// 64-bit value.
pub open spec fn ast_of(pair: PairView) -> Option<ExprAst>
    decreases pair,
{
    match pair {
        PairView::Int(digits) => match literal(digits) {
            Some(v) => Some(ExprAst::Int(v)),
            None => None,
        },
        PairView::Primary(inner) => ast_of(*inner),
        PairView::Factor { negated, operand } => match ast_of(*operand) {
            Some(child) => Some(
                if negated {
                    ExprAst::UnaryOp { op: Op::Subtract, child: Box::new(child) }
                } else {
                    child
                },
            ),
            None => None,
        },
        PairView::PowerTerm { base, exponents } => fold_right(
            ast_of(*base),
            operands_of(exponents),
        ),
        PairView::Term { first, rest } => fold_left(ast_of(*first), chain_of(rest)),
        PairView::Expr { first, rest } => fold_left(ast_of(*first), chain_of(rest)),
    }
}

/// The expressions of a sequence of trees.
pub open spec fn operands_of(trees: Seq<PairView>) -> Seq<Option<ExprAst>>
    decreases trees,
{
    Seq::new(
        trees.len(),
        |i: int|
            if 0 <= i < trees.len() {
                ast_of(trees[i])
            } else {
                None
            },
    )
}

/// The expressions of a chain of trees, each with the operator before it.
pub open spec fn chain_of(chain: Seq<(Op, PairView)>) -> Seq<(Op, Option<ExprAst>)>
    decreases chain,
{
    Seq::new(
        chain.len(),
        |i: int|
            if 0 <= i < chain.len() {
                (chain[i].0, ast_of(chain[i].1))
            } else {
                (Op::Add, None)
            },
    )
}

/// The text of the error for a number that has no 64-bit value.
pub open spec fn literal_text() -> Seq<char> {
    "Число не вміщується в 64-бітне ціле"@
}

/// What the builder reports for an expression, or for the lack of one.
pub open spec fn built(ast: Option<ExprAst>) -> Result<ExprAst, CalculatorErrorView> {
    match ast {
        Some(ast) => Ok(ast),
        None => Err(CalculatorErrorView::EvalError(literal_text())),
    }
}

/// The digits of a number write no less than any of its prefixes does.
pub proof fn lemma_prefix_value(digits: Seq<u8>, k: int)
    requires
        is_number(digits),
        0 <= k <= digits.len(),
    ensures
        digits_value(digits.subrange(0, k)) <= digits_value(digits),
    decreases digits.len(),
{
    if k == digits.len() {
        assert(digits.subrange(0, k) =~= digits);
    } else {
        assert(digits.drop_last().subrange(0, k) =~= digits.subrange(0, k));
        if k > 0 {
            lemma_prefix_value(digits.drop_last(), k);
        } else {
            assert(digits_value(digits.subrange(0, 0)) == 0);
        }
    }
}

/// A left fold has no expression where its first operand has none.
pub proof fn lemma_fold_left_without_first(rest: Seq<(Op, Option<ExprAst>)>)
    ensures
        fold_left(None, rest) is None,
    decreases rest.len(),
{
    if rest.len() > 0 {
        lemma_fold_left_without_first(rest.drop_last());
    }
}

/// A left fold has no expression where one of its later operands has none.
pub proof fn lemma_fold_left_without_operand(
    first: Option<ExprAst>,
    rest: Seq<(Op, Option<ExprAst>)>,
    i: int,
)
    requires
        0 <= i < rest.len(),
        rest[i].1 is None,
    ensures
        fold_left(first, rest) is None,
    decreases rest.len(),
{
    if i < rest.len() - 1 {
        lemma_fold_left_without_operand(first, rest.drop_last(), i);
    }
}

/// A right fold has no expression where one of its later operands has none.
pub proof fn lemma_fold_right_without_operand(
    first: Option<ExprAst>,
    rest: Seq<Option<ExprAst>>,
    i: int,
)
    requires
        0 <= i < rest.len(),
        rest[i] is None,
    ensures
        fold_right(first, rest) is None,
    decreases rest.len(),
{
    if i > 0 {
        lemma_fold_right_without_operand(rest.first(), rest.drop_first(), i - 1);
    } else if rest.len() > 1 {
        assert(fold_right(rest.first(), rest.drop_first()) is None);
    }
}

/// The error for a number that has no 64-bit value.
pub fn literal_error() -> (e: CalculatorError)
    ensures
        e@ == CalculatorErrorView::EvalError(literal_text()),
{
    CalculatorError::EvalError(String::from_str("Число не вміщується в 64-бітне ціле"))
}

/// Reads a number in decimal notation. There is no value where `digits` is
/// empty, holds a byte that is no digit, or writes more than `i64::MAX`.
pub fn number_value(digits: &[u8]) -> (r: Option<i64>)
    ensures
        r == literal(digits@),
{
    if digits.len() == 0 {
        return None;
    }
    let mut acc: i64 = 0;
    let mut i: usize = 0;
    while i < digits.len()
        invariant
            i <= digits.len(),
            forall|j: int| 0 <= j < i ==> is_digit(#[trigger] digits@[j]),
            acc as int == digits_value(digits@.subrange(0, i as int)),
        decreases digits.len() - i,
    {
        let b = digits[i];
        if b < ZERO || b > NINE {
            return None;
        }
        proof {
            assert(digits@.subrange(0, i + 1).drop_last() =~= digits@.subrange(0, i as int));
            if is_number(digits@) {
                lemma_prefix_value(digits@, i + 1);
            }
        }
        let shifted = match acc.checked_mul(10) {
            Some(v) => v,
            None => {
                return None;
            },
        };
        acc = match shifted.checked_add((b - ZERO) as i64) {
            Some(v) => v,
            None => {
                return None;
            },
        };
        i = i + 1;
    }
    proof {
        assert(digits@.subrange(0, i as int) =~= digits@);
    }
    Some(acc)
}

/// Folds the operands of an `expr` or `term` node from the left: the
/// expression built so far becomes the left child of the next operation.
pub fn build_left_assoc(pair: &Pair) -> (r: Result<ExprAst, CalculatorError>)
    requires
        pair is Expr || pair is Term,
    ensures
        outcome(r) == built(ast_of(pair@)),
    decreases pair, 0nat,
{
    let (first, rest) = match pair {
        Pair::Expr { first, rest } => (first, rest),
        Pair::Term { first, rest } => (first, rest),
        _ => unreached(),
    };
    let ghost operands = chain_of(chain_models(rest@));
    assert(ast_of(pair@) == fold_left(ast_of(first@), operands));
    let mut ast = match build_ast_from_pair(first) {
        Ok(ast) => ast,
        Err(e) => {
            proof {
                lemma_fold_left_without_first(operands);
            }
            return Err(e);
        },
    };
    let mut i: usize = 0;
    proof {
        assert(operands.subrange(0, 0) =~= Seq::empty());
    }
    while i < rest.len()
        invariant
            i <= rest.len(),
            pair is Expr || pair is Term,
            pair is Expr ==> rest == pair->Expr_rest,
            pair is Term ==> rest == pair->Term_rest,
            operands == chain_of(chain_models(rest@)),
            ast_of(pair@) == fold_left(ast_of(first@), operands),
            fold_left(ast_of(first@), operands.subrange(0, i as int)) == Some(ast),
        decreases rest.len() - i,
    {
        let rhs = match build_ast_from_pair(&rest[i].1) {
            Ok(ast) => ast,
            Err(e) => {
                proof {
                    lemma_fold_left_without_operand(ast_of(first@), operands, i as int);
                }
                return Err(e);
            },
        };
        proof {
            assert(operands.subrange(0, i + 1).drop_last() =~= operands.subrange(0, i as int));
        }
        ast = ExprAst::BinaryOp { op: rest[i].0, lhs: Box::new(ast), rhs: Box::new(rhs) };
        i = i + 1;
    }
    proof {
        assert(operands.subrange(0, i as int) =~= operands);
    }
    Ok(ast)
}

/// Folds the operands of a `power_term` node from the right: the last
/// operand is built first, and the expression built so far becomes the right
/// child of the power before it.
pub fn build_right_assoc(pair: &Pair) -> (r: Result<ExprAst, CalculatorError>)
    requires
        pair is PowerTerm,
    ensures
        outcome(r) == built(ast_of(pair@)),
    decreases pair, 0nat,
{
    let (base, exponents) = match pair {
        Pair::PowerTerm { base, exponents } => (base, exponents),
        _ => unreached(),
    };
    let ghost operands = operands_of(models(exponents@));
    assert(ast_of(pair@) == fold_right(ast_of(base@), operands));
    let n = exponents.len();
    if n == 0 {
        return build_ast_from_pair(base);
    }
    let mut i: usize = n - 1;
    let mut ast = match build_ast_from_pair(&exponents[i]) {
        Ok(ast) => ast,
        Err(e) => {
            proof {
                lemma_fold_right_without_operand(ast_of(base@), operands, i as int);
            }
            return Err(e);
        },
    };
    proof {
        assert(operands.subrange(n as int, n as int) =~= Seq::empty());
    }
    while i > 0
        invariant
            i < n,
            n == exponents.len(),
            pair is PowerTerm,
            exponents == pair->PowerTerm_exponents,
            operands == operands_of(models(exponents@)),
            ast_of(pair@) == fold_right(ast_of(base@), operands),
            fold_right(operands[i as int], operands.subrange(i + 1, n as int)) == Some(ast),
        decreases i,
    {
        i = i - 1;
        let lhs = match build_ast_from_pair(&exponents[i]) {
            Ok(ast) => ast,
            Err(e) => {
                proof {
                    lemma_fold_right_without_operand(ast_of(base@), operands, i as int);
                }
                return Err(e);
            },
        };
        proof {
            let tail = operands.subrange(i + 1, n as int);
            assert(tail.first() == operands[i + 1]);
            assert(tail.drop_first() =~= operands.subrange(i + 2, n as int));
        }
        ast = ExprAst::BinaryOp { op: Op::Power, lhs: Box::new(lhs), rhs: Box::new(ast) };
    }
    proof {
        assert(operands.first() == operands[0]);
        assert(operands.drop_first() =~= operands.subrange(1, n as int));
    }
    match build_ast_from_pair(base) {
        Ok(lhs) => Ok(ExprAst::BinaryOp { op: Op::Power, lhs: Box::new(lhs), rhs: Box::new(ast) }),
        Err(e) => Err(e),
    }
}

/// Builds the expression of a parse tree. The one error is that of a number
/// that has no 64-bit value.
pub fn build_ast_from_pair(pair: &Pair) -> (r: Result<ExprAst, CalculatorError>)
    ensures
        outcome(r) == built(ast_of(pair@)),
    decreases pair, 1nat,
{
    match pair {
        Pair::Expr { .. } => build_left_assoc(pair),
        Pair::Term { .. } => build_left_assoc(pair),
        Pair::PowerTerm { .. } => build_right_assoc(pair),
        Pair::Factor { negated, operand } => {
            let child = match build_ast_from_pair(operand) {
                Ok(ast) => ast,
                Err(e) => {
                    return Err(e);
                },
            };
            if *negated {
                Ok(ExprAst::UnaryOp { op: Op::Subtract, child: Box::new(child) })
            } else {
                Ok(child)
            }
        },
        Pair::Primary(inner) => build_ast_from_pair(inner),
        Pair::Int(digits) => match number_value(digits.as_slice()) {
            Some(v) => Ok(ExprAst::Int(v)),
            None => Err(literal_error()),
        },
    }
}

/// The expression that an input writes: the grammar gives the parse tree,
/// the tree gives the expression. An input that is no expression is a
/// syntax error, whatever its numbers are.
pub open spec fn expression_of(input: Seq<u8>) -> Result<ExprAst, CalculatorErrorView> {
    match parse_input(input) {
        Ok(tree) => built(ast_of(tree)),
        Err(e) => Err(CalculatorErrorView::ParseError(e)),
    }
}

/// Reads `input` as an expression.
pub fn build_ast(input: &str) -> (r: Result<ExprAst, CalculatorError>)
    ensures
        outcome(r) == expression_of(input.spec_bytes()),
{
    match CalculatorParser::parse(input) {
        Ok(tree) => build_ast_from_pair(&tree),
        Err(e) => Err(CalculatorError::ParseError(e)),
    }
}

} // verus!

//! The value of an expression.
//!
//! An expression is reduced to one 64-bit signed integer. The operands of a
//! node are reduced before the node itself, the left one first, and the first
//! fault ends the reduction. A result outside the 64-bit range is a fault:
//! no operation wraps.

use vstd::prelude::*;
use vstd::string::StringExecFns;
use crate::arith::{checked_power, checked_quotient, fits, power, quotient};
use crate::ast::{op_name, ExprAst, Op};
use crate::error::{outcome, CalculatorError, CalculatorErrorView};

verus! {

/// Why an expression has no value.
#[derive(Debug, Clone, Copy, PartialEq, Eq, Structural)]
pub enum EvalFault {
    /// A quotient whose divisor is zero.
    DivisionByZero,
    /// A power whose exponent is negative.
    NegativeExponent,
    /// A result outside the 64-bit signed range.
    Overflow,
    /// A unary node whose operator is not `Subtract`.
    UnsupportedUnary(Op),
}

/// The text that reports a fault.
pub open spec fn fault_text(fault: EvalFault) -> Seq<char> {
    match fault {
        EvalFault::DivisionByZero => "Ділення на нуль"@,
        EvalFault::NegativeExponent => "Степінь не може бути від'ємним"@,
        EvalFault::Overflow => "Результат не вміщується в 64-бітне ціле"@,
        EvalFault::UnsupportedUnary(op) => "Непідтримувана унарна операція: "@ + op_name(op),
    }
}

/// A mathematical result as a 64-bit value, or the overflow fault.
pub open spec fn narrowed(v: int) -> Result<i64, EvalFault> {
    if fits(v) {
        Ok(v as i64)
    } else {
        Err(EvalFault::Overflow)
    }
}

/// The result of a unary operator on the value of its operand.
pub open spec fn unary_value(op: Op, operand: i64) -> Result<i64, EvalFault> {
    match op {
        Op::Subtract => narrowed(-operand),
        _ => Err(EvalFault::UnsupportedUnary(op)),
    }
}

/// The result of a binary operator on the values of its operands.
pub open spec fn binary_value(op: Op, lhs: i64, rhs: i64) -> Result<i64, EvalFault> {
    match op {
        Op::Add => narrowed(lhs + rhs),
        Op::Subtract => narrowed(lhs - rhs),
        Op::Multiply => narrowed(lhs * rhs),
        Op::Divide => if rhs == 0 {
            Err(EvalFault::DivisionByZero)
        } else {
            narrowed(quotient(lhs as int, rhs as int))
        },
        Op::Power => if rhs < 0 {
            Err(EvalFault::NegativeExponent)
        } else {
            narrowed(power(lhs as int, rhs as nat))
        },
    }
}

/// The value of an expression, or the first fault of its reduction.
pub open spec fn value(ast: ExprAst) -> Result<i64, EvalFault>
    decreases ast,
{
    match ast {
        ExprAst::Int(i) => Ok(i),
        ExprAst::UnaryOp { op, child } => match value(*child) {
            Ok(v) => unary_value(op, v),
            Err(fault) => Err(fault),
        },
        ExprAst::BinaryOp { op, lhs, rhs } => match value(*lhs) {
            Ok(l) => match value(*rhs) {
                Ok(r) => binary_value(op, l, r),
                Err(fault) => Err(fault),
            },
            Err(fault) => Err(fault),
        },
    }
}

/// The number that an expression stands for in unbounded arithmetic, where
/// every divisor is other than zero and every exponent is not negative.
pub open spec fn exact_value(ast: ExprAst) -> int
    decreases ast,
{
    match ast {
        ExprAst::Int(i) => i as int,
        ExprAst::UnaryOp { op, child } => -exact_value(*child),
        ExprAst::BinaryOp { op, lhs, rhs } => match op {
            Op::Add => exact_value(*lhs) + exact_value(*rhs),
            Op::Subtract => exact_value(*lhs) - exact_value(*rhs),
            Op::Multiply => exact_value(*lhs) * exact_value(*rhs),
            Op::Divide => quotient(exact_value(*lhs), exact_value(*rhs)),
            Op::Power => power(exact_value(*lhs), exact_value(*rhs) as nat),
        },
    }
}

/// The outcome of the evaluation as callers see it: the value, or the error
/// that carries the text of the fault.
pub open spec fn reported(r: Result<i64, EvalFault>) -> Result<i64, CalculatorErrorView> {
    match r {
        Ok(v) => Ok(v),
        Err(fault) => Err(CalculatorErrorView::EvalError(fault_text(fault))),
    }
}

/// The error that reports a fault.
pub fn fault_error(fault: EvalFault) -> (e: CalculatorError)
    ensures
        e@ == CalculatorErrorView::EvalError(fault_text(fault)),
{
    let text = match fault {
        EvalFault::DivisionByZero => String::from_str("Ділення на нуль"),
        EvalFault::NegativeExponent => String::from_str("Степінь не може бути від'ємним"),
        EvalFault::Overflow => String::from_str("Результат не вміщується в 64-бітне ціле"),
        EvalFault::UnsupportedUnary(op) => String::from_str(
            "Непідтримувана унарна операція: ",
        ).concat(op.name()),
    };
    CalculatorError::EvalError(text)
}

/// Applies a unary operator to the value of its operand.
pub fn apply_unary(op: Op, operand: i64) -> (r: Result<i64, EvalFault>)
    ensures
        r == unary_value(op, operand),
{
    match op {
        Op::Subtract => match 0i64.checked_sub(operand) {
            Some(v) => Ok(v),
            None => Err(EvalFault::Overflow),
        },
        _ => Err(EvalFault::UnsupportedUnary(op)),
    }
}

/// Applies a binary operator to the values of its operands.
pub fn apply_binary(op: Op, lhs: i64, rhs: i64) -> (r: Result<i64, EvalFault>)
    ensures
        r == binary_value(op, lhs, rhs),
{
    let checked = match op {
        Op::Add => lhs.checked_add(rhs),
        Op::Subtract => lhs.checked_sub(rhs),
        Op::Multiply => lhs.checked_mul(rhs),
        Op::Divide => {
            if rhs == 0 {
                return Err(EvalFault::DivisionByZero);
            }
            checked_quotient(lhs, rhs)
        },
        Op::Power => {
            if rhs < 0 {
                return Err(EvalFault::NegativeExponent);
            }
            checked_power(lhs, rhs as u64)
        },
    };
    match checked {
        Some(v) => Ok(v),
        None => Err(EvalFault::Overflow),
    }
}

impl ExprAst {
    /// Reduces the expression to its value, or to the first fault met.
    pub fn eval(self) -> (r: Result<i64, CalculatorError>)
        ensures
            outcome(r) == reported(value(self)),
        decreases self,
    {
        match self {
            ExprAst::Int(i) => Ok(i),
            ExprAst::UnaryOp { op, child } => {
                let child_val = match (*child).eval() {
                    Ok(v) => v,
                    Err(e) => {
                        return Err(e);
                    },
                };
                match apply_unary(op, child_val) {
                    Ok(v) => Ok(v),
                    Err(fault) => Err(fault_error(fault)),
                }
            },
            ExprAst::BinaryOp { op, lhs, rhs } => {
                let lhs_val = match (*lhs).eval() {
                    Ok(v) => v,
                    Err(e) => {
                        return Err(e);
                    },
                };
                let rhs_val = match (*rhs).eval() {
                    Ok(v) => v,
                    Err(e) => {
                        return Err(e);
                    },
                };
                match apply_binary(op, lhs_val, rhs_val) {
                    Ok(v) => Ok(v),
                    Err(fault) => Err(fault_error(fault)),
                }
            },
        }
    }
}

} // verus!

//! The value of expressions: each operator, each fault, and the order in
//! which faults are met.

use stasko_calculator_parser::arith::{checked_power, checked_quotient};
use stasko_calculator_parser::eval::{apply_binary, apply_unary, fault_error, EvalFault};
use stasko_calculator_parser::{parse_and_evaluate, CalculatorError, ExprAst, Op};

const OVERFLOW: &str = "Результат не вміщується в 64-бітне ціле";
const DIVISION_BY_ZERO: &str = "Ділення на нуль";
const NEGATIVE_EXPONENT: &str = "Степінь не може бути від'ємним";

fn lit(v: i64) -> Box<ExprAst> {
    Box::new(ExprAst::Int(v))
}

fn binary(op: Op, lhs: i64, rhs: i64) -> ExprAst {
    ExprAst::BinaryOp { op, lhs: lit(lhs), rhs: lit(rhs) }
}

fn eval_error(text: &str) -> Result<i64, CalculatorError> {
    Err(CalculatorError::EvalError(text.to_string()))
}

#[test]
fn literal_is_its_value() {
    assert_eq!(ExprAst::Int(7).eval(), Ok(7));
    assert_eq!(ExprAst::Int(-7).eval(), Ok(-7));
    assert_eq!(ExprAst::Int(i64::MIN).eval(), Ok(i64::MIN));
}

#[test]
fn left_associativity_of_subtraction() {
    assert_eq!(parse_and_evaluate("10 - 5 - 2"), Ok(3));
    assert_eq!(parse_and_evaluate("10 - (5 - 2)"), Ok(7));
}

#[test]
fn left_associativity_of_division() {
    assert_eq!(parse_and_evaluate("100 / 10 / 5"), Ok(2));
    assert_eq!(parse_and_evaluate("100 / (10 / 5)"), Ok(50));
    assert_eq!(parse_and_evaluate("2 * 3 / 4"), Ok(1));
    assert_eq!(parse_and_evaluate("2 * (3 / 4)"), Ok(0));
}

#[test]
fn right_associativity_of_power() {
    assert_eq!(parse_and_evaluate("2 ^ 3 ^ 2"), Ok(512));
    assert_eq!(parse_and_evaluate("2 ^ 2 ^ 3"), Ok(256));
    assert_eq!(parse_and_evaluate("(2 ^ 2) ^ 3"), Ok(64));
}

#[test]
fn unary_minus_and_power() {
    assert_eq!(parse_and_evaluate("-2^2"), Ok(-4));
    assert_eq!(parse_and_evaluate("(-2)^2"), Ok(4));
    assert_eq!(parse_and_evaluate("2 ^ -0"), Ok(1));
    assert_eq!(parse_and_evaluate("2--3"), Ok(5));
    assert_eq!(parse_and_evaluate("- 5"), Ok(-5));
}

#[test]
fn addition_subtraction_multiplication() {
    assert_eq!(apply_binary(Op::Add, 2, 3), Ok(5));
    assert_eq!(apply_binary(Op::Add, -2, -3), Ok(-5));
    assert_eq!(apply_binary(Op::Subtract, 2, 3), Ok(-1));
    assert_eq!(apply_binary(Op::Multiply, -4, 3), Ok(-12));
    assert_eq!(apply_binary(Op::Add, i64::MAX, 0), Ok(i64::MAX));
    assert_eq!(apply_binary(Op::Subtract, i64::MIN, 0), Ok(i64::MIN));
    assert_eq!(apply_binary(Op::Multiply, i64::MIN, 1), Ok(i64::MIN));
}

#[test]
fn division_rounds_towards_zero() {
    assert_eq!(binary(Op::Divide, 7, 2).eval(), Ok(3));
    assert_eq!(binary(Op::Divide, -7, 2).eval(), Ok(-3));
    assert_eq!(binary(Op::Divide, 7, -2).eval(), Ok(-3));
    assert_eq!(binary(Op::Divide, -7, -2).eval(), Ok(3));
    assert_eq!(binary(Op::Divide, 0, -2).eval(), Ok(0));
    assert_eq!(binary(Op::Divide, i64::MIN, 1).eval(), Ok(i64::MIN));
    assert_eq!(checked_quotient(-1, 2), Some(0));
    assert_eq!(checked_quotient(i64::MAX, -1), Some(-i64::MAX));
    assert_eq!(checked_quotient(1, 0), None);
    assert_eq!(checked_quotient(i64::MIN, -1), None);
}

#[test]
fn powers() {
    assert_eq!(binary(Op::Power, 2, 10).eval(), Ok(1024));
    assert_eq!(binary(Op::Power, 0, 0).eval(), Ok(1));
    assert_eq!(binary(Op::Power, 0, 5).eval(), Ok(0));
    assert_eq!(binary(Op::Power, 7, 0).eval(), Ok(1));
    assert_eq!(binary(Op::Power, -3, 3).eval(), Ok(-27));
    assert_eq!(binary(Op::Power, -3, 4).eval(), Ok(81));
    assert_eq!(binary(Op::Power, 2, 62).eval(), Ok(4611686018427387904));
    assert_eq!(binary(Op::Power, -2, 63).eval(), Ok(i64::MIN));
    assert_eq!(binary(Op::Power, 3, 39).eval(), Ok(4052555153018976267));
    assert_eq!(binary(Op::Power, 1, i64::MAX).eval(), Ok(1));
    assert_eq!(binary(Op::Power, -1, i64::MAX).eval(), Ok(-1));
    assert_eq!(binary(Op::Power, -1, i64::MAX - 1).eval(), Ok(1));
    assert_eq!(binary(Op::Power, 0, i64::MAX).eval(), Ok(0));
    assert_eq!(checked_power(10, 18), Some(1_000_000_000_000_000_000));
    assert_eq!(checked_power(10, 19), None);
    assert_eq!(checked_power(-1, u64::MAX), Some(-1));
    assert_eq!(checked_power(2, u64::MAX), None);
}

#[test]
fn results_outside_the_range_are_faults() {
    assert_eq!(binary(Op::Add, i64::MAX, 1).eval(), eval_error(OVERFLOW));
    assert_eq!(binary(Op::Add, i64::MIN, -1).eval(), eval_error(OVERFLOW));
    assert_eq!(binary(Op::Subtract, i64::MIN, 1).eval(), eval_error(OVERFLOW));
    assert_eq!(binary(Op::Subtract, 0, i64::MIN).eval(), eval_error(OVERFLOW));
    assert_eq!(binary(Op::Multiply, i64::MAX, 2).eval(), eval_error(OVERFLOW));
    assert_eq!(binary(Op::Multiply, i64::MIN, -1).eval(), eval_error(OVERFLOW));
    assert_eq!(binary(Op::Divide, i64::MIN, -1).eval(), eval_error(OVERFLOW));
    assert_eq!(binary(Op::Power, 2, 63).eval(), eval_error(OVERFLOW));
    assert_eq!(binary(Op::Power, -2, 64).eval(), eval_error(OVERFLOW));
    assert_eq!(binary(Op::Power, 3, 40).eval(), eval_error(OVERFLOW));
    assert_eq!(binary(Op::Power, 2, i64::MAX).eval(), eval_error(OVERFLOW));
    let negated = ExprAst::UnaryOp { op: Op::Subtract, child: lit(i64::MIN) };
    assert_eq!(negated.eval(), eval_error(OVERFLOW));
    assert_eq!(parse_and_evaluate("9223372036854775807 + 1"), eval_error(OVERFLOW));
    assert_eq!(parse_and_evaluate("-9223372036854775807 - 1"), Ok(i64::MIN));
    assert_eq!(parse_and_evaluate("-9223372036854775807 - 2"), eval_error(OVERFLOW));
    assert_eq!(parse_and_evaluate("10 ^ 19"), eval_error(OVERFLOW));
}

#[test]
fn division_by_zero() {
    assert_eq!(binary(Op::Divide, 1, 0).eval(), eval_error(DIVISION_BY_ZERO));
    assert_eq!(binary(Op::Divide, 0, 0).eval(), eval_error(DIVISION_BY_ZERO));
    assert_eq!(binary(Op::Divide, i64::MIN, 0).eval(), eval_error(DIVISION_BY_ZERO));
    assert_eq!(parse_and_evaluate("1 / (2 - 2)"), eval_error(DIVISION_BY_ZERO));
    assert_eq!(apply_binary(Op::Divide, 5, 0), Err(EvalFault::DivisionByZero));
}

#[test]
fn negative_exponent() {
    assert_eq!(binary(Op::Power, 2, -1).eval(), eval_error(NEGATIVE_EXPONENT));
    assert_eq!(binary(Op::Power, 1, -1).eval(), eval_error(NEGATIVE_EXPONENT));
    assert_eq!(binary(Op::Power, 0, i64::MIN).eval(), eval_error(NEGATIVE_EXPONENT));
    assert_eq!(parse_and_evaluate("2 ^ (1 - 2)"), eval_error(NEGATIVE_EXPONENT));
    assert_eq!(apply_binary(Op::Power, 5, -3), Err(EvalFault::NegativeExponent));
}

#[test]
fn unary_operators() {
    assert_eq!(apply_unary(Op::Subtract, 5), Ok(-5));
    assert_eq!(apply_unary(Op::Subtract, -5), Ok(5));
    assert_eq!(apply_unary(Op::Subtract, i64::MIN), Err(EvalFault::Overflow));
    assert_eq!(apply_unary(Op::Add, 5), Err(EvalFault::UnsupportedUnary(Op::Add)));
    let cases = [
        (Op::Add, "Непідтримувана унарна операція: Add"),
        (Op::Multiply, "Непідтримувана унарна операція: Multiply"),
        (Op::Divide, "Непідтримувана унарна операція: Divide"),
        (Op::Power, "Непідтримувана унарна операція: Power"),
    ];
    for (op, text) in cases {
        let ast = ExprAst::UnaryOp { op, child: lit(1) };
        assert_eq!(ast.eval(), eval_error(text));
    }
}

#[test]
fn the_first_fault_is_reported() {
    let division = || Box::new(binary(Op::Divide, 1, 0));
    let power = || Box::new(binary(Op::Power, 2, -1));
    let overflow = || Box::new(binary(Op::Add, i64::MAX, 1));
    let left_first = ExprAst::BinaryOp { op: Op::Add, lhs: power(), rhs: division() };
    assert_eq!(left_first.eval(), eval_error(NEGATIVE_EXPONENT));
    let left_first = ExprAst::BinaryOp { op: Op::Add, lhs: division(), rhs: power() };
    assert_eq!(left_first.eval(), eval_error(DIVISION_BY_ZERO));
    let operands_first = ExprAst::BinaryOp { op: Op::Divide, lhs: overflow(), rhs: lit(0) };
    assert_eq!(operands_first.eval(), eval_error(OVERFLOW));
    let operands_first = ExprAst::BinaryOp { op: Op::Power, lhs: lit(2), rhs: division() };
    assert_eq!(operands_first.eval(), eval_error(DIVISION_BY_ZERO));
    let child_first = ExprAst::UnaryOp { op: Op::Add, child: division() };
    assert_eq!(child_first.eval(), eval_error(DIVISION_BY_ZERO));
    assert_eq!(parse_and_evaluate("1 / 0 + 2 ^ -1"), eval_error(DIVISION_BY_ZERO));
    assert_eq!(parse_and_evaluate("2 ^ -1 + 1 / 0"), eval_error(NEGATIVE_EXPONENT));
}

#[test]
fn faults_have_their_texts() {
    let text_of = |fault| match fault_error(fault) {
        CalculatorError::EvalError(text) => text,
        other => panic!("no evaluation error: {:?}", other),
    };
    assert_eq!(text_of(EvalFault::DivisionByZero), DIVISION_BY_ZERO);
    assert_eq!(text_of(EvalFault::NegativeExponent), NEGATIVE_EXPONENT);
    assert_eq!(text_of(EvalFault::Overflow), OVERFLOW);
    assert_eq!(
        text_of(EvalFault::UnsupportedUnary(Op::Power)),
        "Непідтримувана унарна операція: Power"
    );
}

#[test]
fn a_clone_is_equal() {
    let ast = ExprAst::BinaryOp {
        op: Op::Subtract,
        lhs: Box::new(ExprAst::UnaryOp { op: Op::Subtract, child: lit(5) }),
        rhs: Box::new(binary(Op::Power, 2, 3)),
    };
    let copy = ast.clone();
    assert_eq!(copy, ast);
    assert_eq!(copy.eval(), Ok(-13));
    assert_eq!(ast.eval(), Ok(-13));
}

#[test]
fn error_messages() {
    let e = parse_and_evaluate("1 / 0").unwrap_err();
    assert_eq!(e.message(), "Помилка обчислення: Ділення на нуль");
    let e = parse_and_evaluate("1 + * 2").unwrap_err();
    assert_eq!(
        e.message(),
        "Помилка парсингу: expected a number, '(' or '-', found '*' at byte 4"
    );
}

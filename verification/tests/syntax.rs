//! What the parser accepts, the trees that it gives, and the errors of
//! inputs that are no expressions.

use stasko_calculator_parser::parser::{read_expr, skip_digits, skip_spaces, unexpected};
use stasko_calculator_parser::{
    build_ast, CalculatorError, CalculatorParser, Expected, ExprAst, Found, Op, Pair, SyntaxError,
};

fn number(digits: &str) -> Pair {
    Pair::Primary(Box::new(Pair::Int(digits.as_bytes().to_vec())))
}

fn power_term(base: Pair, exponents: Vec<Pair>) -> Pair {
    Pair::PowerTerm { base: Box::new(base), exponents }
}

fn factor(negated: bool, operand: Pair) -> Pair {
    Pair::Factor { negated, operand: Box::new(operand) }
}

fn term(first: Pair, rest: Vec<(Op, Pair)>) -> Pair {
    Pair::Term { first: Box::new(first), rest }
}

fn expr(first: Pair, rest: Vec<(Op, Pair)>) -> Pair {
    Pair::Expr { first: Box::new(first), rest }
}

fn number_factor(digits: &str) -> Pair {
    factor(false, power_term(number(digits), vec![]))
}

fn number_term(digits: &str) -> Pair {
    term(number_factor(digits), vec![])
}

fn error(position: usize, expected: Expected, found: Found) -> SyntaxError {
    SyntaxError { position, expected, found }
}

#[test]
fn tree_of_a_number() {
    assert_eq!(CalculatorParser::parse("433"), Ok(expr(number_term("433"), vec![])));
    assert_eq!(CalculatorParser::parse(" \t\n433\n"), Ok(expr(number_term("433"), vec![])));
    assert_eq!(CalculatorParser::parse("007"), Ok(expr(number_term("007"), vec![])));
}

#[test]
fn tree_of_a_sum_of_products() {
    let tree = expr(
        number_term("1"),
        vec![
            (Op::Add, term(number_factor("2"), vec![(Op::Multiply, number_factor("3"))])),
            (Op::Subtract, term(number_factor("4"), vec![(Op::Divide, number_factor("5"))])),
        ],
    );
    assert_eq!(CalculatorParser::parse("1 + 2 * 3 - 4 / 5"), Ok(tree));
}

#[test]
fn tree_of_powers() {
    let inner = factor(false, power_term(number("3"), vec![number_factor("2")]));
    let tree = expr(term(factor(false, power_term(number("2"), vec![inner])), vec![]), vec![]);
    assert_eq!(CalculatorParser::parse("2 ^ 3 ^ 2"), Ok(tree));
}

#[test]
fn tree_of_negations_and_parentheses() {
    let inner = expr(number_term("1"), vec![(Op::Add, number_term("2"))]);
    let tree = expr(
        term(factor(true, power_term(Pair::Primary(Box::new(inner)), vec![])), vec![]),
        vec![],
    );
    assert_eq!(CalculatorParser::parse("-(1+2)"), Ok(tree));
    let exponent = factor(true, power_term(number("1"), vec![]));
    let tree = expr(term(factor(false, power_term(number("2"), vec![exponent])), vec![]), vec![]);
    assert_eq!(CalculatorParser::parse("2 ^ -1"), Ok(tree));
}

#[test]
fn whitespace_has_no_meaning() {
    let plain = CalculatorParser::parse("-5*(1+2)^2-3");
    assert!(plain.is_ok());
    assert_eq!(CalculatorParser::parse("-5 * (1 + 2) ^ 2 - 3"), plain);
    assert_eq!(CalculatorParser::parse("  -  5\t*\n(\n1 +2 ) ^2- 3\n\n"), plain);
}

#[test]
fn digits_of_a_number_stand_side_by_side() {
    assert_eq!(
        CalculatorParser::parse("1 2"),
        Err(error(2, Expected::OperatorOrEnd, Found::Number))
    );
    assert_eq!(
        CalculatorParser::parse("1\n2"),
        Err(error(2, Expected::OperatorOrEnd, Found::Number))
    );
}

#[test]
fn carriage_return_is_no_whitespace() {
    assert_eq!(
        CalculatorParser::parse("1 +\r2"),
        Err(error(3, Expected::Operand, Found::Other))
    );
    assert_eq!(CalculatorParser::parse("1\r"), Err(error(1, Expected::OperatorOrEnd, Found::Other)));
}

#[test]
fn errors_of_malformed_inputs() {
    let cases = [
        ("(1 + 2", error(6, Expected::OperatorOrClose, Found::EndOfInput)),
        ("1 + * 2", error(4, Expected::Operand, Found::Operator(Op::Multiply))),
        ("1 2 3", error(2, Expected::OperatorOrEnd, Found::Number)),
        ("", error(0, Expected::Operand, Found::EndOfInput)),
        ("   ", error(3, Expected::Operand, Found::EndOfInput)),
        ("qwe", error(0, Expected::Operand, Found::Other)),
        ("--5", error(1, Expected::Primary, Found::Operator(Op::Subtract))),
        ("-", error(1, Expected::Primary, Found::EndOfInput)),
        ("2---3", error(3, Expected::Primary, Found::Operator(Op::Subtract))),
        ("1)", error(1, Expected::OperatorOrEnd, Found::CloseParen)),
        ("1 (", error(2, Expected::OperatorOrEnd, Found::OpenParen)),
        ("()", error(1, Expected::Operand, Found::CloseParen)),
        ("(1 2)", error(3, Expected::OperatorOrClose, Found::Number)),
        ("((1)", error(4, Expected::OperatorOrClose, Found::EndOfInput)),
        ("1 +", error(3, Expected::Operand, Found::EndOfInput)),
        ("1 + ", error(4, Expected::Operand, Found::EndOfInput)),
        ("2 ^ ^", error(4, Expected::Operand, Found::Operator(Op::Power))),
        ("2 * /", error(4, Expected::Operand, Found::Operator(Op::Divide))),
        ("+1", error(0, Expected::Operand, Found::Operator(Op::Add))),
        ("1 + я", error(4, Expected::Operand, Found::Other)),
        ("1.5", error(1, Expected::OperatorOrEnd, Found::Other)),
    ];
    for (input, expected) in cases {
        assert_eq!(CalculatorParser::parse(input), Err(expected), "input {:?}", input);
        assert_eq!(build_ast(input), Err(CalculatorError::ParseError(expected)), "input {:?}", input);
    }
}

#[test]
fn descriptions_of_syntax_errors() {
    let cases = [
        ("(1 + 2", "expected an operator or ')', found the end of the input at byte 6"),
        ("1 + * 2", "expected a number, '(' or '-', found '*' at byte 4"),
        ("1 2 3", "expected an operator or the end of the input, found a number at byte 2"),
        ("", "expected a number, '(' or '-', found the end of the input at byte 0"),
        ("qwe", "expected a number, '(' or '-', found an unexpected character at byte 0"),
        ("--5", "expected a number or '(', found '-' at byte 1"),
        ("1)", "expected an operator or the end of the input, found ')' at byte 1"),
        ("1 (", "expected an operator or the end of the input, found '(' at byte 2"),
        ("1 + +", "expected a number, '(' or '-', found '+' at byte 4"),
        ("1 + /", "expected a number, '(' or '-', found '/' at byte 4"),
        ("1 + ^", "expected a number, '(' or '-', found '^' at byte 4"),
        ("1 + 2 + 3 + 4 + 5 + )", "expected a number, '(' or '-', found ')' at byte 20"),
    ];
    for (input, description) in cases {
        let e = CalculatorParser::parse(input).unwrap_err();
        assert_eq!(e.description(), description, "input {:?}", input);
    }
}

#[test]
fn a_syntax_error_comes_before_a_number_that_is_too_large() {
    assert_eq!(
        build_ast("99999999999999999999 +"),
        Err(CalculatorError::ParseError(error(22, Expected::Operand, Found::EndOfInput)))
    );
}

#[test]
fn deep_nesting() {
    let mut input = String::new();
    for _ in 0..200 {
        input.push('(');
    }
    input.push('7');
    for _ in 0..200 {
        input.push(')');
    }
    assert_eq!(build_ast(&input), Ok(ExprAst::Int(7)));
    input.pop();
    assert_eq!(
        CalculatorParser::parse(&input),
        Err(error(400, Expected::OperatorOrClose, Found::EndOfInput))
    );
}

#[test]
fn reading_from_a_place() {
    let input = b"  12 + 3) * 4";
    assert_eq!(skip_spaces(input, 0), 2);
    assert_eq!(skip_spaces(input, 2), 2);
    assert_eq!(skip_spaces(input, 13), 13);
    assert_eq!(skip_digits(input, 2), 4);
    assert_eq!(skip_digits(input, 4), 4);
    assert_eq!(skip_digits(b"123", 0), 3);
    let (tree, end) = read_expr(input, 0).expect("an expression");
    assert_eq!(end, 8);
    assert_eq!(tree, expr(number_term("12"), vec![(Op::Add, number_term("3"))]));
    assert_eq!(
        unexpected(input, 8, Expected::OperatorOrEnd),
        error(8, Expected::OperatorOrEnd, Found::CloseParen)
    );
    assert_eq!(
        unexpected(input, 13, Expected::Operand),
        error(13, Expected::Operand, Found::EndOfInput)
    );
}

//! The parser is held to the grammar as pest reads it: on every input of an
//! exhaustive set, both accept or both refuse, give the same tree where they
//! accept, and name the same place where they refuse.

use pest::error::InputLocation;
use pest::iterators::Pair as PestPair;
use pest_vm::Vm;
use stasko_calculator_parser::{CalculatorParser, Op, Pair};

const GRAMMAR: &str = r#"
WHITESPACE = _{ " " | "\t" | "\n" }
int = @{ ASCII_DIGIT+ }
add = { "+" }
subtract = { "-" }
multiply = { "*" }
divide = { "/" }
power = { "^" }
primary = { int | "(" ~ expr ~ ")" }
factor = { (subtract)? ~ power_term }
power_term = { primary ~ (power ~ factor)* }
term = { factor ~ ((multiply | divide) ~ factor)* }
expr = { term ~ ((add | subtract) ~ term)* }
expression = { SOI ~ expr ~ EOI }
"#;

fn vm() -> Vm {
    let (_, rules) = pest_meta::parse_and_optimize(GRAMMAR).expect("the grammar is valid");
    Vm::new(rules)
}

fn op_of(rule: &str) -> Op {
    match rule {
        "add" => Op::Add,
        "subtract" => Op::Subtract,
        "multiply" => Op::Multiply,
        "divide" => Op::Divide,
        "power" => Op::Power,
        other => panic!("no operator: {}", other),
    }
}

fn chain(pair: PestPair<'_, &str>) -> (Box<Pair>, Vec<(Op, Pair)>) {
    let mut inner = pair.into_inner();
    let first = Box::new(tree_of(inner.next().expect("a first operand")));
    let mut rest = Vec::new();
    while let Some(op) = inner.next() {
        let operand = inner.next().expect("an operand after the operator");
        rest.push((op_of(op.as_rule()), tree_of(operand)));
    }
    (first, rest)
}

fn tree_of(pair: PestPair<'_, &str>) -> Pair {
    match pair.as_rule() {
        "expr" => {
            let (first, rest) = chain(pair);
            Pair::Expr { first, rest }
        }
        "term" => {
            let (first, rest) = chain(pair);
            Pair::Term { first, rest }
        }
        "power_term" => {
            let mut inner = pair.into_inner();
            let base = Box::new(tree_of(inner.next().expect("a base")));
            let mut exponents = Vec::new();
            while let Some(op) = inner.next() {
                assert_eq!(op.as_rule(), "power");
                exponents.push(tree_of(inner.next().expect("an exponent")));
            }
            Pair::PowerTerm { base, exponents }
        }
        "factor" => {
            let mut inner = pair.into_inner();
            let first = inner.next().expect("a child");
            if first.as_rule() == "subtract" {
                let operand = inner.next().expect("an operand after the minus");
                Pair::Factor { negated: true, operand: Box::new(tree_of(operand)) }
            } else {
                Pair::Factor { negated: false, operand: Box::new(tree_of(first)) }
            }
        }
        "primary" => {
            let inner = pair.into_inner().next().expect("a child");
            Pair::Primary(Box::new(tree_of(inner)))
        }
        "int" => Pair::Int(pair.as_str().as_bytes().to_vec()),
        other => panic!("no rule of a tree: {}", other),
    }
}

fn check(vm: &Vm, input: &str) {
    let ours = CalculatorParser::parse(input);
    match vm.parse("expression", input) {
        Ok(mut pairs) => {
            let expression = pairs.next().expect("the root");
            let expr = expression.into_inner().next().expect("the expression");
            let theirs = tree_of(expr);
            assert_eq!(ours, Ok(theirs), "input {:?}", input);
        }
        Err(error) => {
            let position = match error.location {
                InputLocation::Pos(p) => p,
                InputLocation::Span((p, _)) => p,
            };
            match ours {
                Ok(tree) => panic!("input {:?} is refused by pest and read as {:?}", input, tree),
                Err(e) => assert_eq!(e.position, position, "input {:?}", input),
            }
        }
    }
}

fn check_all(vm: &Vm, alphabet: &[u8], prefix: &mut Vec<u8>, more: usize) {
    check(vm, std::str::from_utf8(prefix).expect("ASCII"));
    if more > 0 {
        for &b in alphabet {
            prefix.push(b);
            check_all(vm, alphabet, prefix, more - 1);
            prefix.pop();
        }
    }
}

/// Checks every input over `alphabet` of up to `longest` bytes that starts
/// with one of `starts`.
fn check_from(starts: &[u8], alphabet: &[u8], longest: usize) {
    let vm = vm();
    for &first in starts {
        let mut prefix = vec![first];
        check_all(&vm, alphabet, &mut prefix, longest - 1);
    }
}

#[test]
fn agrees_with_pest_on_the_empty_input() {
    check(&vm(), "");
}

#[test]
fn agrees_with_pest_on_short_inputs_that_start_with_a_digit() {
    check_from(b"10", b"10+-*/^() x", 5);
}

#[test]
fn agrees_with_pest_on_short_inputs_that_start_with_an_operator() {
    check_from(b"+-*", b"10+-*/^() x", 5);
}

#[test]
fn agrees_with_pest_on_short_inputs_that_start_with_another_operator() {
    check_from(b"/^", b"10+-*/^() x", 5);
}

#[test]
fn agrees_with_pest_on_short_inputs_that_start_with_a_parenthesis() {
    check_from(b"()", b"10+-*/^() x", 5);
}

#[test]
fn agrees_with_pest_on_short_inputs_that_start_with_none_of_these() {
    check_from(b" x", b"10+-*/^() x", 5);
}

#[test]
fn agrees_with_pest_on_powers_and_negations() {
    check_from(b"7-^", b"7-^*() ", 6);
}

#[test]
fn agrees_with_pest_on_products_and_parentheses() {
    check_from(b"*() ", b"7-^*() ", 6);
}

#[test]
fn agrees_with_pest_on_whitespace_after_a_token() {
    check_from(b"3+(", b"3+(\t\n\r ", 6);
}

#[test]
fn agrees_with_pest_on_whitespace_before_a_token() {
    check_from(b"\t\n\r ", b"3+(\t\n\r ", 6);
}

#[test]
fn agrees_with_pest_on_longer_quotients() {
    check_from(b"2/", b"2/(-)", 7);
}

#[test]
fn agrees_with_pest_on_longer_nestings() {
    check_from(b"(-)", b"2/(-)", 7);
}

#[test]
fn agrees_with_pest_on_chosen_inputs() {
    let vm = vm();
    let inputs = [
        "433",
        "1 + 2",
        "10 - 5 - 2",
        "2 ^ 3 ^ 2",
        "2 + 3 * 4",
        "(2 + 3) * 4",
        "-2^2",
        "(-2)^2",
        "2 ^ -1",
        "2--3",
        "2---3",
        "--5",
        "- 5",
        "-5 * (1 + 2) ^ 2 - 3",
        "(1 + 2",
        "1 + * 2",
        "1 2 3",
        "",
        "qwe",
        "  \t\n 7 \n",
        "((((((7))))))",
        "((((((7)))))",
        "1 / 0",
        "007",
        "99999999999999999999999999 + 1",
        "1 + я",
        "1 +\r 2",
        "2 ^ 3 ^",
        "1 )",
        "()",
        "1 + (2 * (3 - (4 / (5 ^ 6))))",
    ];
    for input in inputs {
        check(&vm, input);
    }
}

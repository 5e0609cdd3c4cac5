//! The laws of the calculator on chosen values.

use stasko_calculator_parser::{
    build_ast, parse_and_evaluate, CalculatorParser, ExprAst, Op, Pair,
};

const INPUTS: [&str; 16] = [
    "433",
    "007",
    "1 + 2",
    "10 - 5 - 2",
    "2 ^ 3 ^ 2",
    "2 + 3 * 4",
    "2 * 3 + 4",
    "(2 + 3) * 4",
    "-2^2",
    "(-2)^2",
    "2 ^ -1",
    "2--3",
    "-5 * (1 + 2) ^ 2 - 3",
    " \t(( 1 ))\n/ 0 ",
    "1 + (2 * (3 - (4 / (5 ^ 6))))",
    "-(-(-1))",
];

fn spelling(pair: &Pair, out: &mut Vec<u8>) {
    match pair {
        Pair::Int(digits) => out.extend_from_slice(digits),
        Pair::Primary(inner) => match **inner {
            Pair::Int(_) => spelling(inner, out),
            _ => {
                out.push(b'(');
                spelling(inner, out);
                out.push(b')');
            }
        },
        Pair::Factor { negated, operand } => {
            if *negated {
                out.push(b'-');
            }
            spelling(operand, out);
        }
        Pair::PowerTerm { base, exponents } => {
            spelling(base, out);
            for exponent in exponents {
                out.push(b'^');
                spelling(exponent, out);
            }
        }
        Pair::Term { first, rest } | Pair::Expr { first, rest } => {
            spelling(first, out);
            for (op, operand) in rest {
                out.push(match op {
                    Op::Add => b'+',
                    Op::Subtract => b'-',
                    Op::Multiply => b'*',
                    Op::Divide => b'/',
                    Op::Power => b'^',
                });
                spelling(operand, out);
            }
        }
    }
}

fn conforms(pair: &Pair) -> bool {
    match pair {
        Pair::Int(digits) => !digits.is_empty() && digits.iter().all(|b| b.is_ascii_digit()),
        Pair::Primary(inner) => {
            matches!(**inner, Pair::Int(_) | Pair::Expr { .. }) && conforms(inner)
        }
        Pair::Factor { operand, .. } => {
            matches!(**operand, Pair::PowerTerm { .. }) && conforms(operand)
        }
        Pair::PowerTerm { base, exponents } => {
            matches!(**base, Pair::Primary(_))
                && conforms(base)
                && exponents.iter().all(|e| matches!(e, Pair::Factor { .. }) && conforms(e))
        }
        Pair::Term { first, rest } => {
            matches!(**first, Pair::Factor { .. })
                && conforms(first)
                && rest.iter().all(|(op, operand)| {
                    matches!(op, Op::Multiply | Op::Divide)
                        && matches!(operand, Pair::Factor { .. })
                        && conforms(operand)
                })
        }
        Pair::Expr { first, rest } => {
            matches!(**first, Pair::Term { .. })
                && conforms(first)
                && rest.iter().all(|(op, operand)| {
                    matches!(op, Op::Add | Op::Subtract)
                        && matches!(operand, Pair::Term { .. })
                        && conforms(operand)
                })
        }
    }
}

fn written(ast: &ExprAst) -> bool {
    match ast {
        ExprAst::Int(v) => *v >= 0,
        ExprAst::UnaryOp { op, child } => *op == Op::Subtract && written(child),
        ExprAst::BinaryOp { lhs, rhs, .. } => written(lhs) && written(rhs),
    }
}

fn lit(v: i64) -> Box<ExprAst> {
    Box::new(ExprAst::Int(v))
}

#[test]
fn a_number_is_its_value() {
    let cases: [(&str, i64); 8] = [
        ("0", 0),
        ("1", 1),
        ("9", 9),
        ("10", 10),
        ("433", 433),
        ("007", 7),
        ("9223372036854775807", i64::MAX),
        ("00000000000000000000000000012", 12),
    ];
    for (input, value) in cases {
        assert_eq!(build_ast(input), Ok(ExprAst::Int(value)), "input {:?}", input);
        assert_eq!(parse_and_evaluate(input), Ok(value), "input {:?}", input);
        let text = ExprAst::Int(value).to_canonical();
        assert_eq!(text, value.to_string());
        assert_eq!(build_ast(&text), Ok(ExprAst::Int(value)));
    }
}

#[test]
fn a_tree_conforms_to_the_grammar() {
    for input in INPUTS {
        let tree = CalculatorParser::parse(input).expect("an expression");
        assert!(matches!(tree, Pair::Expr { .. }), "input {:?}", input);
        assert!(conforms(&tree), "input {:?}", input);
    }
}

#[test]
fn a_tree_spells_its_input() {
    for input in INPUTS {
        let tree = CalculatorParser::parse(input).expect("an expression");
        let mut tokens = Vec::new();
        spelling(&tree, &mut tokens);
        let expected: Vec<u8> =
            input.bytes().filter(|b| !matches!(b, b' ' | b'\t' | b'\n')).collect();
        assert_eq!(tokens, expected, "input {:?}", input);
    }
}

#[test]
fn an_error_names_a_place_of_the_input() {
    for input in ["", "(", "1 +", "1 + * 2", "1 2 3", "qwe", "((1)", "  ", "2 ^"] {
        let e = CalculatorParser::parse(input).expect_err("no expression");
        assert!(e.position <= input.len(), "input {:?}", input);
    }
}

#[test]
fn an_expression_of_an_input_is_written() {
    for input in INPUTS {
        let ast = build_ast(input).expect("an expression");
        assert!(written(&ast), "input {:?}", input);
    }
}

#[test]
fn canonical_texts() {
    let cases = [
        ("433", "433"),
        ("007", "7"),
        ("1+2", "1 + 2"),
        ("10 - 5 - 2", "(10 - 5) - 2"),
        ("2 ^ 3 ^ 2", "2 ^ (3 ^ 2)"),
        ("2 + 3 * 4", "2 + (3 * 4)"),
        ("(2 + 3) * 4", "(2 + 3) * 4"),
        ("-2^2", "-(2 ^ 2)"),
        ("(-2)^2", "(-2) ^ 2"),
        ("2 ^ -1", "2 ^ (-1)"),
        ("8 / 4 / 2", "(8 / 4) / 2"),
        ("-5 * (1 + 2) ^ 2 - 3", "((-5) * ((1 + 2) ^ 2)) - 3"),
        ("-(-(-1))", "-(-(-1))"),
        ("((((7))))", "7"),
    ];
    for (input, text) in cases {
        let ast = build_ast(input).expect("an expression");
        assert_eq!(ast.to_canonical(), text, "input {:?}", input);
    }
}

#[test]
fn canonical_texts_of_expressions_that_no_input_writes() {
    assert_eq!(ExprAst::Int(-5).to_canonical(), "-5");
    assert_eq!(ExprAst::Int(i64::MIN).to_canonical(), "-9223372036854775808");
    assert_eq!(ExprAst::Int(i64::MIN + 1).to_canonical(), "-9223372036854775807");
    let power = ExprAst::BinaryOp { op: Op::Power, lhs: lit(-2), rhs: lit(2) };
    assert_eq!(power.to_canonical(), "(-2) ^ 2");
    let plus = ExprAst::UnaryOp { op: Op::Add, child: lit(1) };
    assert_eq!(plus.to_canonical(), "+1");
    assert!(build_ast(&plus.to_canonical()).is_err());
}

#[test]
fn a_canonical_text_is_read_back() {
    for input in INPUTS {
        let ast = build_ast(input).expect("an expression");
        let text = ast.to_canonical();
        assert_eq!(build_ast(&text), Ok(ast.clone()), "input {:?}", input);
        assert_eq!(parse_and_evaluate(&text), parse_and_evaluate(input), "input {:?}", input);
    }
}

fn expressions(depth: usize) -> Vec<ExprAst> {
    let mut all = vec![ExprAst::Int(0), ExprAst::Int(12)];
    if depth > 0 {
        let smaller = expressions(depth - 1);
        for child in &smaller {
            all.push(ExprAst::UnaryOp { op: Op::Subtract, child: Box::new(child.clone()) });
        }
        for op in [Op::Add, Op::Subtract, Op::Multiply, Op::Divide, Op::Power] {
            for lhs in &smaller {
                for rhs in &smaller {
                    all.push(ExprAst::BinaryOp {
                        op,
                        lhs: Box::new(lhs.clone()),
                        rhs: Box::new(rhs.clone()),
                    });
                }
            }
        }
    }
    all
}

#[test]
fn every_small_written_expression_is_read_back() {
    for ast in expressions(2) {
        let text = ast.to_canonical();
        assert_eq!(build_ast(&text), Ok(ast.clone()), "text {:?}", text);
        assert_eq!(parse_and_evaluate(&text), ast.eval(), "text {:?}", text);
    }
}

fn skip_space(s: &[u8], mut pos: usize) -> usize {
    while pos < s.len() && matches!(s[pos], b' ' | b'\t' | b'\n') {
        pos += 1;
    }
    pos
}

fn symbol_end(s: &[u8], pos: usize, symbol: u8) -> Option<usize> {
    let p = skip_space(s, pos);
    if p < s.len() && s[p] == symbol {
        Some(p + 1)
    } else {
        None
    }
}

fn layout_end(pair: &Pair, s: &[u8], pos: usize) -> Option<usize> {
    match pair {
        Pair::Int(digits) => {
            let p = skip_space(s, pos);
            let end = p + digits.len();
            let stands = end <= s.len() && s[p..end] == digits[..];
            let ends = end >= s.len() || !s[end].is_ascii_digit();
            if stands && ends {
                Some(end)
            } else {
                None
            }
        }
        Pair::Primary(inner) => match **inner {
            Pair::Int(_) => layout_end(inner, s, pos),
            _ => {
                let open = symbol_end(s, pos, b'(')?;
                let end = layout_end(inner, s, open)?;
                symbol_end(s, end, b')')
            }
        },
        Pair::Factor { negated, operand } => {
            let start = if *negated { symbol_end(s, pos, b'-')? } else { pos };
            layout_end(operand, s, start)
        }
        Pair::PowerTerm { base, exponents } => {
            let mut end = layout_end(base, s, pos)?;
            for exponent in exponents {
                let start = symbol_end(s, end, b'^')?;
                end = layout_end(exponent, s, start)?;
            }
            Some(end)
        }
        Pair::Term { first, rest } | Pair::Expr { first, rest } => {
            let mut end = layout_end(first, s, pos)?;
            for (op, operand) in rest {
                let symbol = match op {
                    Op::Add => b'+',
                    Op::Subtract => b'-',
                    Op::Multiply => b'*',
                    Op::Divide => b'/',
                    Op::Power => b'^',
                };
                let start = symbol_end(s, end, symbol)?;
                end = layout_end(operand, s, start)?;
            }
            Some(end)
        }
    }
}

fn laid_out(pair: &Pair, s: &[u8]) -> bool {
    match layout_end(pair, s, 0) {
        Some(end) => skip_space(s, end) >= s.len(),
        None => false,
    }
}

fn nests_powers(pair: &Pair) -> bool {
    match pair {
        Pair::Int(_) => true,
        Pair::Primary(inner) => nests_powers(inner),
        Pair::Factor { operand, .. } => nests_powers(operand),
        Pair::PowerTerm { base, exponents } => {
            exponents.len() <= 1 && nests_powers(base) && exponents.iter().all(nests_powers)
        }
        Pair::Term { first, rest } | Pair::Expr { first, rest } => {
            nests_powers(first) && rest.iter().all(|(_, operand)| nests_powers(operand))
        }
    }
}

#[test]
fn a_tree_is_laid_out_in_its_input() {
    for input in INPUTS {
        let tree = CalculatorParser::parse(input).expect("an expression");
        assert!(nests_powers(&tree), "input {:?}", input);
        assert!(laid_out(&tree, input.as_bytes()), "input {:?}", input);
    }
}

#[test]
fn a_tree_that_is_laid_out_in_an_input_is_read_from_it() {
    let layouts = [
        ("1+2*3", " 1 + 2 * 3 "),
        ("1+2*3", "1\n+\t2*3"),
        ("-(2^3)", "- ( 2 ^ 3 )"),
        ("2^-1", "2 ^ - 1"),
        ("((7))", "( (7 ) )"),
    ];
    for (plain, spaced) in layouts {
        let tree = CalculatorParser::parse(plain).expect("an expression");
        assert!(laid_out(&tree, spaced.as_bytes()), "input {:?}", spaced);
        assert_eq!(CalculatorParser::parse(spaced), Ok(tree), "input {:?}", spaced);
    }
    let tree = CalculatorParser::parse("12").expect("an expression");
    assert!(!laid_out(&tree, b"1 2"));
    assert!(!laid_out(&tree, b"123"));
    assert!(!laid_out(&tree, b"12 +"));
    let flat = Pair::Expr {
        first: Box::new(Pair::Term {
            first: Box::new(Pair::Factor {
                negated: false,
                operand: Box::new(Pair::PowerTerm {
                    base: Box::new(Pair::Primary(Box::new(Pair::Int(b"2".to_vec())))),
                    exponents: vec![
                        Pair::Factor {
                            negated: false,
                            operand: Box::new(Pair::PowerTerm {
                                base: Box::new(Pair::Primary(Box::new(Pair::Int(b"3".to_vec())))),
                                exponents: vec![],
                            }),
                        },
                        Pair::Factor {
                            negated: false,
                            operand: Box::new(Pair::PowerTerm {
                                base: Box::new(Pair::Primary(Box::new(Pair::Int(b"2".to_vec())))),
                                exponents: vec![],
                            }),
                        },
                    ],
                }),
            }),
            rest: vec![],
        }),
        rest: vec![],
    };
    assert!(conforms(&flat));
    assert!(laid_out(&flat, b"2^3^2"));
    assert!(!nests_powers(&flat));
    assert!(CalculatorParser::parse("2^3^2") != Ok(flat));
}

/// The number that an expression stands for, in arithmetic wide enough for
/// the expressions of these tests; `None` where a divisor is zero, an
/// exponent is negative, or a result is too large for the width.
fn exact(ast: &ExprAst) -> Option<i128> {
    match ast {
        ExprAst::Int(v) => Some(*v as i128),
        ExprAst::UnaryOp { child, .. } => Some(-exact(child)?),
        ExprAst::BinaryOp { op, lhs, rhs } => {
            let (l, r) = (exact(lhs)?, exact(rhs)?);
            match op {
                Op::Add => l.checked_add(r),
                Op::Subtract => l.checked_sub(r),
                Op::Multiply => l.checked_mul(r),
                Op::Divide => l.checked_div(r),
                Op::Power if r < 0 => None,
                Op::Power if l == 0 => Some(if r == 0 { 1 } else { 0 }),
                Op::Power if l == 1 => Some(1),
                Op::Power if l == -1 => Some(if r % 2 == 0 { 1 } else { -1 }),
                Op::Power => l.checked_pow(u32::try_from(r).ok()?),
            }
        }
    }
}

#[test]
fn a_value_is_exact() {
    let mut values = 0;
    for ast in expressions(2) {
        if let Ok(v) = ast.clone().eval() {
            assert_eq!(exact(&ast), Some(v as i128), "expression {:?}", ast);
            values += 1;
        }
    }
    assert!(values > 1000);
    let large = ExprAst::BinaryOp {
        op: Op::Subtract,
        lhs: Box::new(ExprAst::BinaryOp { op: Op::Power, lhs: lit(-2), rhs: lit(63) }),
        rhs: Box::new(ExprAst::BinaryOp { op: Op::Divide, lhs: lit(-7), rhs: lit(2) }),
    };
    assert_eq!(exact(&large), Some(i64::MIN as i128 + 3));
    assert_eq!(large.eval(), Ok(i64::MIN + 3));
}

//! Laws of the calculator: what holds of every input, every parse tree and
//! every expression.

use vstd::prelude::*;
use crate::ast::{ExprAst, Op};
use crate::builder::{
    ast_of, chain_of, digits_value, expression_of, fold_left, fold_right, literal, literal_text,
    operands_of,
};
use crate::calculator::result_of;
use crate::canonical::{canonical_bytes, decimal_bytes};
use crate::error::{CalculatorErrorView, Expected, SyntaxErrorView};
use crate::eval::{exact_value, value};
use crate::grammar::{
    digit_run, is_digit, is_number, lemma_parse_exponents, lemma_parse_expr, lemma_parse_factor,
    lemma_parse_factors, lemma_parse_power_term, lemma_parse_primary, lemma_parse_term,
    lemma_parse_terms, parse_expr, parse_input, remaining, skip_space, space_run,
};
use crate::layout::{laid_out, lemma_expr_laid_out, lemma_expr_read, lemma_layout_advances};
use crate::roundtrip::{lemma_canonical_expr, lemma_closes};
use crate::shape::{lemma_expr_within, lemma_space_run_bound};
use crate::spelling::{lemma_expr_spells, lemma_piece_join, lemma_piece_space, without_space};
use crate::tree::PairView;

verus! {

/// Where only digits stand from `pos` on, the run of digits reaches the end
/// of the input.
pub proof fn lemma_digit_run_to_end(s: Seq<u8>, pos: nat)
    requires
        pos <= s.len(),
        forall|i: int| pos <= i < s.len() ==> is_digit(#[trigger] s[i]),
    ensures
        pos + digit_run(s, pos) == s.len(),
    decreases remaining(s, pos),
{
    if pos < s.len() {
        lemma_digit_run_to_end(s, pos + 1);
    }
}

/// The parse tree of an input that is one number.
pub open spec fn number_tree(digits: Seq<u8>) -> PairView {
    PairView::Expr {
        first: Box::new(
            PairView::Term {
                first: Box::new(
                    PairView::Factor {
                        negated: false,
                        operand: Box::new(
                            PairView::PowerTerm {
                                base: Box::new(PairView::Primary(Box::new(PairView::Int(digits)))),
                                exponents: Seq::empty(),
                            },
                        ),
                    },
                ),
                rest: Seq::empty(),
            },
        ),
        rest: Seq::empty(),
    }
}

/// An input that is one number, with nothing around it, is read as the tree
/// of that number, and the expression of the tree is that of the number.
pub proof fn lemma_number_tree(digits: Seq<u8>)
    requires
        is_number(digits),
    ensures
        parse_input(digits) == Ok::<PairView, SyntaxErrorView>(number_tree(digits)),
        ast_of(number_tree(digits)) == ast_of(PairView::Int(digits)),
{
    let s = digits;
    let len = s.len();
    assert(is_digit(s[0]));
    assert(space_run(s, 0) == 0);
    assert(space_run(s, len) == 0);
    lemma_digit_run_to_end(s, 0);
    assert(s.subrange(0, len as int) =~= s);
    let number = PairView::Int(s);
    let primary = PairView::Primary(Box::new(number));
    let power_term = PairView::PowerTerm { base: Box::new(primary), exponents: Seq::empty() };
    let factor = PairView::Factor { negated: false, operand: Box::new(power_term) };
    let term = PairView::Term { first: Box::new(factor), rest: Seq::empty() };
    let expr = PairView::Expr { first: Box::new(term), rest: Seq::empty() };
    lemma_parse_primary(s, 0, Expected::Operand);
    lemma_parse_exponents(s, len);
    lemma_parse_power_term(s, 0, Expected::Operand);
    lemma_parse_factor(s, 0);
    lemma_parse_factors(s, len);
    lemma_parse_term(s, 0);
    lemma_parse_terms(s, len);
    lemma_parse_expr(s, 0);
    assert(parse_expr(s, 0) == Ok::<(PairView, nat), SyntaxErrorView>((expr, len)));
    assert(ast_of(primary) == ast_of(number));
    assert(operands_of(Seq::<PairView>::empty()).len() == 0);
    assert(ast_of(power_term) == ast_of(number));
    assert(ast_of(factor) == ast_of(number));
    assert(chain_of(Seq::<(Op, PairView)>::empty()).len() == 0);
    assert(ast_of(term) == ast_of(number));
    assert(ast_of(expr) == ast_of(number));
}

/// An input that is one number, with no sign and nothing around it, is read
/// as that number: where the number is no more than `i64::MAX`, the
/// expression is its literal and the value of the input is the number. The
/// canonical text of the expression, which is the number without leading
/// zeros, is read back as the same expression.
pub proof fn law_number_is_its_value(digits: Seq<u8>)
    requires
        is_number(digits),
        digits_value(digits) <= i64::MAX,
    ensures
        expression_of(digits) == Ok::<ExprAst, CalculatorErrorView>(
            ExprAst::Int(digits_value(digits) as i64),
        ),
        result_of(digits) == Ok::<i64, CalculatorErrorView>(digits_value(digits) as i64),
        canonical_bytes(ExprAst::Int(digits_value(digits) as i64)) == decimal_bytes(
            digits_value(digits),
        ),
        expression_of(canonical_bytes(ExprAst::Int(digits_value(digits) as i64))) == expression_of(
            digits,
        ),
{
    lemma_number_tree(digits);
    law_canonical_round_trip(ExprAst::Int(digits_value(digits) as i64));
}

/// A number that is more than `i64::MAX` has no value: the input is an
/// expression of the grammar, and the error is that of the number.
pub proof fn law_number_too_large(digits: Seq<u8>)
    requires
        is_number(digits),
        digits_value(digits) > i64::MAX,
    ensures
        parse_input(digits) is Ok,
        expression_of(digits) == Err::<ExprAst, CalculatorErrorView>(
            CalculatorErrorView::EvalError(literal_text()),
        ),
        result_of(digits) == Err::<i64, CalculatorErrorView>(
            CalculatorErrorView::EvalError(literal_text()),
        ),
{
    lemma_number_tree(digits);
}

/// Every tree that the grammar gives for an input is an `Expr` node that
/// conforms to the grammar and nests its powers, and every error names a
/// place of the input.
pub proof fn law_tree_conforms(input: Seq<u8>)
    ensures
        match parse_input(input) {
            Ok(tree) => tree is Expr && tree.conforms() && tree.nests_powers(),
            Err(e) => e.position <= input.len(),
        },
{
    lemma_expr_within(input, 0);
    if let Ok((tree, n)) = parse_expr(input, 0) {
        lemma_space_run_bound(input, n);
    }
}

/// What the left fold of written expressions gives is written.
pub proof fn lemma_fold_left_written(first: Option<ExprAst>, rest: Seq<(Op, Option<ExprAst>)>)
    requires
        first matches Some(ast) ==> ast.written(),
        forall|i: int| 0 <= i < rest.len() ==> ((#[trigger] rest[i]).1 matches Some(ast) ==> ast.written()),
    ensures
        fold_left(first, rest) matches Some(ast) ==> ast.written(),
    decreases rest.len(),
{
    if rest.len() > 0 {
        lemma_fold_left_written(first, rest.drop_last());
    }
}

/// What the right fold of written expressions gives is written.
pub proof fn lemma_fold_right_written(first: Option<ExprAst>, rest: Seq<Option<ExprAst>>)
    requires
        first matches Some(ast) ==> ast.written(),
        forall|i: int| 0 <= i < rest.len() ==> ((#[trigger] rest[i]) matches Some(ast) ==> ast.written()),
    ensures
        fold_right(first, rest) matches Some(ast) ==> ast.written(),
    decreases rest.len(),
{
    if rest.len() > 0 {
        lemma_fold_right_written(rest.first(), rest.drop_first());
    }
}

/// The expression of a parse tree, of whatever shape, is one that an input
/// can write: its unary nodes are negations and its numbers are not negative.
pub proof fn law_built_is_written(pair: PairView)
    ensures
        ast_of(pair) matches Some(ast) ==> ast.written() && ast.well_formed(),
    decreases pair,
{
    match pair {
        PairView::Int(digits) => {},
        PairView::Primary(inner) => {
            law_built_is_written(*inner);
        },
        PairView::Factor { negated, operand } => {
            law_built_is_written(*operand);
        },
        PairView::PowerTerm { base, exponents } => {
            law_built_is_written(*base);
            let operands = operands_of(exponents);
            assert forall|i: int| 0 <= i < operands.len() implies ((#[trigger] operands[i]) matches Some(
                ast,
            ) ==> ast.written()) by {
                law_built_is_written(exponents[i]);
            }
            lemma_fold_right_written(ast_of(*base), operands);
        },
        PairView::Term { first, rest } => {
            law_built_is_written(*first);
            let operands = chain_of(rest);
            assert forall|i: int| 0 <= i < operands.len() implies ((#[trigger] operands[i]).1 matches Some(
                ast,
            ) ==> ast.written()) by {
                law_built_is_written(rest[i].1);
            }
            lemma_fold_left_written(ast_of(*first), operands);
        },
        PairView::Expr { first, rest } => {
            law_built_is_written(*first);
            let operands = chain_of(rest);
            assert forall|i: int| 0 <= i < operands.len() implies ((#[trigger] operands[i]).1 matches Some(
                ast,
            ) ==> ast.written()) by {
                law_built_is_written(rest[i].1);
            }
            lemma_fold_left_written(ast_of(*first), operands);
        },
    }
    if let Some(ast) = ast_of(pair) {
        lemma_written_is_well_formed(ast);
    }
}

/// An expression that an input can write is well formed.
pub proof fn lemma_written_is_well_formed(ast: ExprAst)
    requires
        ast.written(),
    ensures
        ast.well_formed(),
    decreases ast,
{
    match ast {
        ExprAst::Int(_) => {},
        ExprAst::UnaryOp { op, child } => {
            lemma_written_is_well_formed(*child);
        },
        ExprAst::BinaryOp { op, lhs, rhs } => {
            lemma_written_is_well_formed(*lhs);
            lemma_written_is_well_formed(*rhs);
        },
    }
}

/// The reduction of a well-formed expression meets no unary operator that it
/// does not know: it gives a value, or one of the three arithmetic faults.
pub proof fn law_faults_are_arithmetic(ast: ExprAst)
    requires
        ast.well_formed(),
    ensures
        match value(ast) {
            Ok(_) => true,
            Err(fault) => fault is DivisionByZero || fault is NegativeExponent || fault is Overflow,
        },
    decreases ast,
{
    match ast {
        ExprAst::Int(_) => {},
        ExprAst::UnaryOp { op, child } => {
            law_faults_are_arithmetic(*child);
        },
        ExprAst::BinaryOp { op, lhs, rhs } => {
            law_faults_are_arithmetic(*lhs);
            law_faults_are_arithmetic(*rhs);
        },
    }
}

/// Every expression that an input writes is evaluable without further
/// validation: its reduction gives a value or an arithmetic fault.
pub proof fn law_inputs_are_evaluable(input: Seq<u8>)
    ensures
        expression_of(input) matches Ok(ast) ==> (ast.written() && match value(ast) {
            Ok(_) => true,
            Err(fault) => fault is DivisionByZero || fault is NegativeExponent || fault is Overflow,
        }),
{
    if let Ok(tree) = parse_input(input) {
        law_built_is_written(tree);
        if let Some(ast) = ast_of(tree) {
            law_faults_are_arithmetic(ast);
        }
    }
}

/// The canonical text of an expression that an input can write is read back
/// as that expression: writing and reading keep the structure.
pub proof fn law_canonical_round_trip(ast: ExprAst)
    requires
        ast.written(),
    ensures
        expression_of(canonical_bytes(ast)) == Ok::<ExprAst, CalculatorErrorView>(ast),
{
    let text = canonical_bytes(ast);
    assert(text.subrange(0, text.len() as int) =~= text);
    lemma_canonical_expr(ast, text, 0);
    lemma_closes(text, text.len());
}

/// The expressions that inputs write are those that are written: each has
/// an input that writes it, its canonical text, and no input writes another.
pub proof fn law_written_expressions(ast: ExprAst)
    ensures
        ast.written() <==> exists|input: Seq<u8>|
            expression_of(input) == Ok::<ExprAst, CalculatorErrorView>(ast),
{
    if ast.written() {
        law_canonical_round_trip(ast);
    }
    assert forall|input: Seq<u8>|
        expression_of(input) == Ok::<ExprAst, CalculatorErrorView>(ast) implies ast.written() by {
        law_inputs_are_evaluable(input);
    }
}

/// The tree that the grammar gives for an input spells the input: its
/// tokens, side by side, are the bytes of the input without the whitespace.
/// Nothing of the input is left out of the tree and nothing is added to it.
pub proof fn law_tree_spells_input(input: Seq<u8>)
    ensures
        parse_input(input) matches Ok(tree) ==> tree.spelling() == without_space(input),
{
    lemma_expr_within(input, 0);
    lemma_expr_spells(input, 0);
    if let Ok((tree, n)) = parse_expr(input, 0) {
        lemma_space_run_bound(input, n);
        if skip_space(input, n) >= input.len() {
            lemma_piece_space(input, n);
            lemma_piece_join(input, 0, n, input.len());
            assert(input.subrange(0, input.len() as int) =~= input);
            assert(tree.spelling() + Seq::<u8>::empty() =~= tree.spelling());
        }
    }
}

/// The grammar, without a word on how an input is read: the tree that the
/// grammar gives for an input is the one tree that is an expression of the
/// grammar, nests its powers, and is laid out in the whole input.
pub proof fn law_grammar(input: Seq<u8>, tree: PairView)
    ensures
        parse_input(input) == Ok::<PairView, SyntaxErrorView>(tree) <==> {
            &&& tree is Expr
            &&& tree.conforms()
            &&& tree.nests_powers()
            &&& laid_out(tree, input)
        },
{
    if parse_input(input) == Ok::<PairView, SyntaxErrorView>(tree) {
        law_tree_conforms(input);
        lemma_expr_laid_out(input, 0);
    }
    if tree is Expr && tree.conforms() && tree.nests_powers() && laid_out(tree, input) {
        lemma_expr_read(tree, input, 0);
        lemma_layout_advances(tree, input, 0);
    }
}

/// Whitespace has no meaning: an input in which the tokens of another
/// input's tree stand, with whatever whitespace between them, is read as the
/// same tree.
pub proof fn law_whitespace_has_no_meaning(a: Seq<u8>, b: Seq<u8>)
    ensures
        parse_input(a) matches Ok(tree) ==> (laid_out(tree, b) ==> parse_input(b) == Ok::<
            PairView,
            SyntaxErrorView,
        >(tree)),
{
    if let Ok(tree) = parse_input(a) {
        law_grammar(a, tree);
        law_grammar(b, tree);
    }
}

/// An input that the grammar refuses has no tree: no expression of the
/// grammar is laid out in it.
pub proof fn law_refused_input_has_no_tree(input: Seq<u8>, tree: PairView)
    requires
        parse_input(input) is Err,
    ensures
        !(tree is Expr && tree.conforms() && tree.nests_powers() && laid_out(tree, input)),
{
    law_grammar(input, tree);
}

/// A value is exact: where the reduction of an expression gives a value, it
/// is the number that the expression stands for in unbounded arithmetic.
/// No step of the reduction has wrapped or lost a part of a result.
pub proof fn law_value_is_exact(ast: ExprAst)
    ensures
        value(ast) matches Ok(v) ==> v == exact_value(ast),
    decreases ast,
{
    match ast {
        ExprAst::Int(_) => {},
        ExprAst::UnaryOp { op, child } => {
            law_value_is_exact(*child);
        },
        ExprAst::BinaryOp { op, lhs, rhs } => {
            law_value_is_exact(*lhs);
            law_value_is_exact(*rhs);
        },
    }
}

} // verus!

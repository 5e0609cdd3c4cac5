//! The canonical text of an expression is read back as that expression: the
//! proofs, level by level.

use vstd::prelude::*;
use crate::ast::{ExprAst, Op};
use crate::builder::{ast_of, chain_of, digits_value, fold_left, fold_right, operands_of};
use crate::canonical::{canonical_bytes, decimal_bytes, operand_bytes};
use crate::error::{Expected, SyntaxErrorView};
use crate::grammar::{
    additive_op, digit_run, holds_at, is_digit, is_number, is_space, lemma_parse_exponents,
    lemma_parse_expr, lemma_parse_factor, lemma_parse_factors, lemma_parse_power_term,
    lemma_parse_primary, lemma_parse_term, lemma_parse_terms, multiplicative_op, next_byte,
    no_digit_at, op_byte, parse_exponents, parse_expr, parse_factor, parse_factors,
    parse_power_term, parse_primary, parse_term, parse_terms, skip_space, space_run, CARET, CLOSE,
    MINUS, OPEN, PLUS, SLASH, SPACE, STAR,
};
use crate::tree::PairView;

verus! {

/// Whether a rule gave a tree of the expression `ast` and ended at `end`.
pub open spec fn reads(
    r: Result<(PairView, nat), SyntaxErrorView>,
    pos: nat,
    end: nat,
    ast: ExprAst,
) -> bool {
    r matches Ok((tree, n)) && pos + n == end && ast_of(tree) == Some(ast)
}

/// What stands in `s` from `pos` on is there byte by byte.
pub proof fn lemma_holds_at(s: Seq<u8>, pos: nat, w: Seq<u8>, i: int)
    requires
        holds_at(s, pos, w),
        0 <= i < w.len(),
    ensures
        s[pos + i] == w[i],
{
    assert(s.subrange(pos as int, (pos + w.len()) as int)[i] == s[pos + i]);
}

/// What stands in `s` is made of what stands there first and what follows it.
pub proof fn lemma_holds_at_parts(s: Seq<u8>, pos: nat, a: Seq<u8>, b: Seq<u8>)
    requires
        holds_at(s, pos, a + b),
    ensures
        holds_at(s, pos, a),
        holds_at(s, pos + a.len(), b),
{
    let w = a + b;
    assert(s.subrange(pos as int, (pos + a.len()) as int) =~= a) by {
        assert forall|i: int| 0 <= i < a.len() implies s[pos + i] == a[i] by {
            lemma_holds_at(s, pos, w, i);
        }
    }
    assert(s.subrange((pos + a.len()) as int, (pos + a.len() + b.len()) as int) =~= b) by {
        assert forall|i: int| 0 <= i < b.len() implies s[pos + a.len() + i] == b[i] by {
            lemma_holds_at(s, pos, w, a.len() + i);
        }
    }
}

/// No whitespace is skipped at a byte that is none.
pub proof fn lemma_skip_nothing(s: Seq<u8>, pos: nat)
    requires
        pos >= s.len() || !is_space(s[pos as int]),
    ensures
        skip_space(s, pos) == pos,
{
}

/// One space is skipped before a byte that is no whitespace.
pub proof fn lemma_skip_one(s: Seq<u8>, pos: nat)
    requires
        pos + 1 < s.len(),
        s[pos as int] == SPACE,
        !is_space(s[(pos + 1) as int]),
    ensures
        skip_space(s, pos) == pos + 1,
{
    assert(space_run(s, pos + 1) == 0);
}

/// A run of digits is as long as the digits that stand before a byte that is none.
pub proof fn lemma_digit_run_exact(s: Seq<u8>, pos: nat, k: nat)
    requires
        pos + k <= s.len(),
        forall|i: int| pos <= i < pos + k ==> is_digit(#[trigger] s[i]),
        no_digit_at(s, pos + k),
    ensures
        digit_run(s, pos) == k,
    decreases k,
{
    if k > 0 {
        lemma_digit_run_exact(s, pos + 1, (k - 1) as nat);
    }
}

/// The decimal notation of a number is a number that writes it.
pub proof fn lemma_decimal_bytes(n: nat)
    ensures
        is_number(decimal_bytes(n)),
        digits_value(decimal_bytes(n)) == n,
    decreases n,
{
    if n < 10 {
        let w = decimal_bytes(n);
        assert(w.drop_last() =~= Seq::<u8>::empty());
        assert(digits_value(w.drop_last()) == 0);
    } else {
        lemma_decimal_bytes(n / 10);
        let head = decimal_bytes(n / 10);
        let w = decimal_bytes(n);
        assert(w.drop_last() =~= head);
        assert forall|i: int| 0 <= i < w.len() implies is_digit(#[trigger] w[i]) by {
            if i < head.len() {
                assert(w[i] == head[i]);
            }
        }
    }
}

/// The operand text of a written expression starts with a digit or with `(`.
pub proof fn lemma_operand_start(ast: ExprAst)
    requires
        ast.written(),
    ensures
        operand_bytes(ast).len() > 0,
        is_digit(operand_bytes(ast)[0]) || operand_bytes(ast)[0] == OPEN,
{
    match ast {
        ExprAst::Int(v) => {
            lemma_decimal_bytes(v as nat);
            assert(canonical_bytes(ast) == decimal_bytes(v as nat));
        },
        _ => {},
    }
}

/// A number that stands before a byte that is no digit is read by `primary`
/// as that number.
pub proof fn lemma_number_primary(v: i64, s: Seq<u8>, pos: nat, lead: Expected)
    requires
        v >= 0,
        holds_at(s, skip_space(s, pos), decimal_bytes(v as nat)),
        no_digit_at(s, skip_space(s, pos) + decimal_bytes(v as nat).len()),
    ensures
        reads(
            parse_primary(s, pos, lead),
            pos,
            skip_space(s, pos) + decimal_bytes(v as nat).len(),
            ExprAst::Int(v),
        ),
{
    let p = skip_space(s, pos);
    let w = decimal_bytes(v as nat);
    lemma_decimal_bytes(v as nat);
    assert forall|i: int| p <= i < p + w.len() implies is_digit(#[trigger] s[i]) by {
        lemma_holds_at(s, p, w, i - p);
    }
    lemma_digit_run_exact(s, p, w.len());
    lemma_parse_primary(s, pos, lead);
    assert(is_digit(s[p as int]));
    let number = PairView::Int(w);
    assert(ast_of(number) == Some(ExprAst::Int(v)));
    assert(ast_of(PairView::Primary(Box::new(number))) == Some(ExprAst::Int(v)));
}

/// Where no `^` follows a primary, `power_term` gives the primary alone.
pub proof fn lemma_lone_primary(s: Seq<u8>, pos: nat, lead: Expected, end: nat, ast: ExprAst)
    requires
        reads(parse_primary(s, pos, lead), pos, end, ast),
        next_byte(s, end) != Some(CARET),
    ensures
        reads(parse_power_term(s, pos, lead), pos, end, ast),
{
    lemma_parse_power_term(s, pos, lead);
    lemma_parse_exponents(s, end);
    let (base, n) = parse_primary(s, pos, lead)->Ok_0;
    let tree = PairView::PowerTerm { base: Box::new(base), exponents: Seq::empty() };
    assert(operands_of(Seq::<PairView>::empty()).len() == 0);
    assert(ast_of(tree) == ast_of(base));
}

/// Where no `-` stands first, `factor` gives its power term alone.
pub proof fn lemma_plain_factor(s: Seq<u8>, pos: nat, end: nat, ast: ExprAst)
    requires
        reads(parse_power_term(s, pos, Expected::Operand), pos, end, ast),
        next_byte(s, pos) != Some(MINUS),
    ensures
        reads(parse_factor(s, pos), pos, end, ast),
{
    lemma_parse_factor(s, pos);
    let (operand, n) = parse_power_term(s, pos, Expected::Operand)->Ok_0;
    let tree = PairView::Factor { negated: false, operand: Box::new(operand) };
    assert(ast_of(tree) == ast_of(operand));
}

/// Where neither `*` nor `/` follows a factor, `term` gives the factor alone.
pub proof fn lemma_lone_factor(s: Seq<u8>, pos: nat, end: nat, ast: ExprAst)
    requires
        reads(parse_factor(s, pos), pos, end, ast),
        next_byte(s, end) != Some(STAR),
        next_byte(s, end) != Some(SLASH),
    ensures
        reads(parse_term(s, pos), pos, end, ast),
{
    lemma_parse_term(s, pos);
    lemma_parse_factors(s, end);
    let (first, n) = parse_factor(s, pos)->Ok_0;
    let tree = PairView::Term { first: Box::new(first), rest: Seq::empty() };
    assert(chain_of(Seq::<(Op, PairView)>::empty()).len() == 0);
    assert(ast_of(tree) == ast_of(first));
}

/// Where neither `+` nor `-` follows a term, `expr` gives the term alone.
pub proof fn lemma_lone_term(s: Seq<u8>, pos: nat, end: nat, ast: ExprAst)
    requires
        reads(parse_term(s, pos), pos, end, ast),
        next_byte(s, end) != Some(PLUS),
        next_byte(s, end) != Some(MINUS),
    ensures
        reads(parse_expr(s, pos), pos, end, ast),
{
    lemma_parse_expr(s, pos);
    lemma_parse_terms(s, end);
    let (first, n) = parse_term(s, pos)->Ok_0;
    let tree = PairView::Expr { first: Box::new(first), rest: Seq::empty() };
    assert(chain_of(Seq::<(Op, PairView)>::empty()).len() == 0);
    assert(ast_of(tree) == ast_of(first));
}

/// Whether the input ends at `pos` or a `)` stands there.
pub open spec fn closes(s: Seq<u8>, pos: nat) -> bool {
    pos >= s.len() || s[pos as int] == CLOSE
}

/// Where the input ends or a `)` stands, no digit stands, nothing is
/// skipped, and no operator follows.
pub proof fn lemma_closes(s: Seq<u8>, pos: nat)
    requires
        closes(s, pos),
    ensures
        no_digit_at(s, pos),
        skip_space(s, pos) == pos,
        next_byte(s, pos) is None || next_byte(s, pos) == Some(CLOSE),
{
    lemma_skip_nothing(s, pos);
}

/// The three places of a binary operator between its operands: a space, the
/// operator, a space, and then a byte that starts an operand.
pub proof fn lemma_operator_places(s: Seq<u8>, pos: nat, op: Op, rhs: ExprAst)
    requires
        rhs.written(),
        holds_at(s, pos, seq![SPACE, op_byte(op), SPACE] + operand_bytes(rhs)),
    ensures
        no_digit_at(s, pos),
        skip_space(s, pos) == pos + 1,
        pos + 1 < s.len(),
        s[(pos + 1) as int] == op_byte(op),
        skip_space(s, pos + 2) == pos + 3,
        holds_at(s, pos + 3, operand_bytes(rhs)),
{
    let sep = seq![SPACE, op_byte(op), SPACE];
    let w = operand_bytes(rhs);
    lemma_operand_start(rhs);
    lemma_holds_at_parts(s, pos, sep, w);
    lemma_holds_at(s, pos, sep, 0);
    lemma_holds_at(s, pos, sep, 1);
    lemma_holds_at(s, pos, sep, 2);
    lemma_holds_at(s, pos + 3, w, 0);
    lemma_skip_one(s, pos);
    lemma_skip_one(s, pos + 2);
}

/// The operand text of a written expression, before a byte that is no
/// digit, is read by `primary` as that expression.
pub proof fn lemma_operand_primary(ast: ExprAst, s: Seq<u8>, pos: nat, lead: Expected)
    requires
        ast.written(),
        holds_at(s, skip_space(s, pos), operand_bytes(ast)),
        no_digit_at(s, skip_space(s, pos) + operand_bytes(ast).len()),
    ensures
        reads(
            parse_primary(s, pos, lead),
            pos,
            skip_space(s, pos) + operand_bytes(ast).len(),
            ast,
        ),
    decreases ast, 1nat,
{
    let p = skip_space(s, pos);
    match ast {
        ExprAst::Int(v) => {
            lemma_number_primary(v, s, pos, lead);
        },
        _ => {
            let c = canonical_bytes(ast);
            let open = seq![OPEN];
            let close = seq![CLOSE];
            lemma_holds_at_parts(s, p, open + c, close);
            lemma_holds_at_parts(s, p, open, c);
            lemma_holds_at(s, p, open, 0);
            lemma_holds_at(s, p + 1 + c.len(), close, 0);
            lemma_canonical_expr(ast, s, p + 1);
            lemma_skip_nothing(s, p + 1 + c.len());
            lemma_parse_primary(s, pos, lead);
            let (inner, n) = parse_expr(s, p + 1)->Ok_0;
            assert(ast_of(PairView::Primary(Box::new(inner))) == ast_of(inner));
        },
    }
}

/// The operand text of a written expression, where no `^` follows it, is
/// read by `factor` as that expression.
pub proof fn lemma_operand_factor(ast: ExprAst, s: Seq<u8>, pos: nat, end: nat)
    requires
        ast.written(),
        holds_at(s, skip_space(s, pos), operand_bytes(ast)),
        end == skip_space(s, pos) + operand_bytes(ast).len(),
        no_digit_at(s, end),
        next_byte(s, end) != Some(CARET),
    ensures
        reads(parse_factor(s, pos), pos, end, ast),
    decreases ast, 2nat,
{
    lemma_operand_primary(ast, s, pos, Expected::Operand);
    lemma_lone_primary(s, pos, Expected::Operand, end, ast);
    lemma_operand_start(ast);
    lemma_holds_at(s, skip_space(s, pos), operand_bytes(ast), 0);
    lemma_plain_factor(s, pos, end, ast);
}

/// The operand text of a written expression, where none of `^`, `*` and `/`
/// follows it, is read by `term` as that expression.
pub proof fn lemma_operand_term(ast: ExprAst, s: Seq<u8>, pos: nat, end: nat)
    requires
        ast.written(),
        holds_at(s, skip_space(s, pos), operand_bytes(ast)),
        end == skip_space(s, pos) + operand_bytes(ast).len(),
        no_digit_at(s, end),
        next_byte(s, end) != Some(CARET),
        next_byte(s, end) != Some(STAR),
        next_byte(s, end) != Some(SLASH),
    ensures
        reads(parse_term(s, pos), pos, end, ast),
    decreases ast, 3nat,
{
    lemma_operand_factor(ast, s, pos, end);
    lemma_lone_factor(s, pos, end, ast);
}

/// The canonical text of a written expression, where the input ends or a
/// `)` stands after it, is read by `expr` as that expression.
pub proof fn lemma_canonical_expr(ast: ExprAst, s: Seq<u8>, pos: nat)
    requires
        ast.written(),
        holds_at(s, pos, canonical_bytes(ast)),
        closes(s, pos + canonical_bytes(ast).len()),
    ensures
        reads(parse_expr(s, pos), pos, pos + canonical_bytes(ast).len(), ast),
    decreases ast, 0nat,
{
    let c = canonical_bytes(ast);
    let end = pos + c.len();
    lemma_closes(s, end);
    match ast {
        ExprAst::Int(v) => {
            lemma_decimal_bytes(v as nat);
            lemma_holds_at(s, pos, c, 0);
            lemma_skip_nothing(s, pos);
            lemma_number_primary(v, s, pos, Expected::Operand);
            lemma_lone_primary(s, pos, Expected::Operand, end, ast);
            lemma_plain_factor(s, pos, end, ast);
            lemma_lone_factor(s, pos, end, ast);
            lemma_lone_term(s, pos, end, ast);
        },
        ExprAst::UnaryOp { op, child } => {
            let w = operand_bytes(*child);
            lemma_operand_start(*child);
            lemma_holds_at_parts(s, pos, seq![MINUS], w);
            lemma_holds_at(s, pos, seq![MINUS], 0);
            lemma_holds_at(s, pos + 1, w, 0);
            lemma_skip_nothing(s, pos);
            lemma_skip_nothing(s, pos + 1);
            lemma_operand_primary(*child, s, pos + 1, Expected::Primary);
            lemma_lone_primary(s, pos + 1, Expected::Primary, end, *child);
            lemma_parse_factor(s, pos);
            let (operand, n) = parse_power_term(s, pos + 1, Expected::Primary)->Ok_0;
            let tree = PairView::Factor { negated: true, operand: Box::new(operand) };
            assert(ast_of(tree) == Some(ast));
            assert(reads(parse_factor(s, pos), pos, end, ast));
            lemma_lone_factor(s, pos, end, ast);
            lemma_lone_term(s, pos, end, ast);
        },
        ExprAst::BinaryOp { op, lhs, rhs } => {
            let wl = operand_bytes(*lhs);
            let wr = operand_bytes(*rhs);
            let sep = seq![SPACE, op_byte(op), SPACE];
            let mid = pos + wl.len();
            assert(c =~= wl + (sep + wr));
            lemma_operand_start(*lhs);
            lemma_holds_at_parts(s, pos, wl, sep + wr);
            lemma_holds_at(s, pos, wl, 0);
            lemma_skip_nothing(s, pos);
            lemma_operator_places(s, mid, op, *rhs);
            assert(next_byte(s, mid) == Some(op_byte(op)));
            assert(end == mid + 3 + wr.len());
            match op {
                Op::Add | Op::Subtract => {
                    lemma_operand_term(*lhs, s, pos, mid);
                    lemma_operand_term(*rhs, s, mid + 2, end);
                    lemma_parse_terms(s, mid);
                    lemma_parse_terms(s, end);
                    lemma_parse_expr(s, pos);
                    let (first, n) = parse_term(s, pos)->Ok_0;
                    let (operand, m) = parse_term(s, mid + 2)->Ok_0;
                    let rest = seq![(op, operand)] + Seq::<(Op, PairView)>::empty();
                    let tree = PairView::Expr { first: Box::new(first), rest };
                    assert(additive_op(s[(mid + 1) as int]) == Some(op));
                    assert(parse_terms(s, end) == Ok::<(Seq<(Op, PairView)>, nat), SyntaxErrorView>(
                        (Seq::empty(), 0),
                    ));
                    assert(parse_expr(s, pos) == Ok::<(PairView, nat), SyntaxErrorView>(
                        (tree, (end - pos) as nat),
                    ));
                    lemma_single_left(ast_of(first), op, operand);
                    assert(rest =~= seq![(op, operand)]);
                },
                Op::Multiply | Op::Divide => {
                    lemma_operand_factor(*lhs, s, pos, mid);
                    lemma_operand_factor(*rhs, s, mid + 2, end);
                    lemma_parse_factors(s, mid);
                    lemma_parse_factors(s, end);
                    lemma_parse_term(s, pos);
                    let (first, n) = parse_factor(s, pos)->Ok_0;
                    let (operand, m) = parse_factor(s, mid + 2)->Ok_0;
                    let rest = seq![(op, operand)] + Seq::<(Op, PairView)>::empty();
                    let tree = PairView::Term { first: Box::new(first), rest };
                    assert(multiplicative_op(s[(mid + 1) as int]) == Some(op));
                    assert(parse_factors(s, end) == Ok::<(Seq<(Op, PairView)>, nat), SyntaxErrorView>(
                        (Seq::empty(), 0),
                    ));
                    assert(parse_term(s, pos) == Ok::<(PairView, nat), SyntaxErrorView>(
                        (tree, (end - pos) as nat),
                    ));
                    lemma_single_left(ast_of(first), op, operand);
                    assert(rest =~= seq![(op, operand)]);
                    assert(reads(parse_term(s, pos), pos, end, ast));
                    lemma_lone_term(s, pos, end, ast);
                },
                Op::Power => {
                    lemma_operand_primary(*lhs, s, pos, Expected::Operand);
                    lemma_operand_factor(*rhs, s, mid + 2, end);
                    lemma_parse_exponents(s, mid);
                    lemma_parse_exponents(s, end);
                    lemma_parse_power_term(s, pos, Expected::Operand);
                    let (base, n) = parse_primary(s, pos, Expected::Operand)->Ok_0;
                    let (exponent, m) = parse_factor(s, mid + 2)->Ok_0;
                    let exponents = seq![exponent] + Seq::<PairView>::empty();
                    let tree = PairView::PowerTerm { base: Box::new(base), exponents };
                    assert(parse_exponents(s, end) == Ok::<(Seq<PairView>, nat), SyntaxErrorView>(
                        (Seq::empty(), 0),
                    ));
                    assert(parse_power_term(s, pos, Expected::Operand) == Ok::<
                        (PairView, nat),
                        SyntaxErrorView,
                    >((tree, (end - pos) as nat)));
                    lemma_single_right(ast_of(base), exponent);
                    assert(exponents =~= seq![exponent]);
                    assert(reads(parse_power_term(s, pos, Expected::Operand), pos, end, ast));
                    lemma_plain_factor(s, pos, end, ast);
                    lemma_lone_factor(s, pos, end, ast);
                    lemma_lone_term(s, pos, end, ast);
                },
            }
        },
    }
}

/// The left fold of a first operand and one more is their binary operation.
pub proof fn lemma_single_left(first: Option<ExprAst>, op: Op, operand: PairView)
    ensures
        fold_left(first, chain_of(seq![(op, operand)])) == match (first, ast_of(operand)) {
            (Some(lhs), Some(rhs)) => Some(
                ExprAst::BinaryOp { op, lhs: Box::new(lhs), rhs: Box::new(rhs) },
            ),
            _ => None,
        },
{
    let chain = chain_of(seq![(op, operand)]);
    assert(chain.len() == 1);
    assert(chain.last() == (op, ast_of(operand)));
    assert(chain.drop_last().len() == 0);
    assert(fold_left(first, chain.drop_last()) == first);
}

/// The right fold of a base and one exponent is their power.
pub proof fn lemma_single_right(first: Option<ExprAst>, exponent: PairView)
    ensures
        fold_right(first, operands_of(seq![exponent])) == match (first, ast_of(exponent)) {
            (Some(lhs), Some(rhs)) => Some(
                ExprAst::BinaryOp { op: Op::Power, lhs: Box::new(lhs), rhs: Box::new(rhs) },
            ),
            _ => None,
        },
{
    let operands = operands_of(seq![exponent]);
    assert(operands.len() == 1);
    assert(operands.first() == ast_of(exponent));
    assert(operands.drop_first().len() == 0);
    assert(fold_right(operands.first(), operands.drop_first()) == ast_of(exponent));
}

} // verus!

//! The grammar of arithmetic expressions, as functions on bytes.
//!
//! ```text
//! expression = expr, then the end of the input
//! expr       = term   { ("+" | "-") term }
//! term       = factor { ("*" | "/") factor }
//! factor     = [ "-" ] power_term
//! power_term = primary { "^" factor }
//! primary    = integer | "(" expr ")"
//! integer    = digit { digit }
//! ```
//!
//! Spaces, tabs and newlines may stand before and after every token and have
//! no meaning. An integer is one token: its digits stand side by side.
//!
//! Each rule is a function of the input and of the place where the rule may
//! start. It gives the tree of what the rule matched with the number of bytes
//! that it took, or the error of the first token that is out of place.
//!
//! The rules call each other in a circle, so each is opaque: a proof takes
//! one step of one rule at a time, through the lemma that states the rule as
//! an equation.

use vstd::prelude::*;
use crate::ast::Op;
use crate::error::{Expected, Found, SyntaxErrorView};
use crate::tree::PairView;

verus! {

/// The byte of a space.
pub const SPACE: u8 = 0x20;

/// The byte of a tab.
pub const TAB: u8 = 0x09;

/// The byte of a newline.
pub const NEWLINE: u8 = 0x0a;

/// The byte of `+`.
pub const PLUS: u8 = 0x2b;

/// The byte of `-`.
pub const MINUS: u8 = 0x2d;

/// The byte of `*`.
pub const STAR: u8 = 0x2a;

/// The byte of `/`.
pub const SLASH: u8 = 0x2f;

/// The byte of `^`.
pub const CARET: u8 = 0x5e;

/// The byte of `(`.
pub const OPEN: u8 = 0x28;

/// The byte of `)`.
pub const CLOSE: u8 = 0x29;

/// The byte of the digit `0`.
pub const ZERO: u8 = 0x30;

/// The byte of the digit `9`.
pub const NINE: u8 = 0x39;

/// A space, a tab or a newline.
pub open spec fn is_space(b: u8) -> bool {
    b == SPACE || b == TAB || b == NEWLINE
}

/// An ASCII digit.
pub open spec fn is_digit(b: u8) -> bool {
    ZERO <= b <= NINE
}

/// Whether `digits` is one or more ASCII digits.
pub open spec fn is_number(digits: Seq<u8>) -> bool {
    digits.len() > 0 && forall|i: int| 0 <= i < digits.len() ==> is_digit(#[trigger] digits[i])
}

/// The operator that the byte `b` writes between two terms.
pub open spec fn additive_op(b: u8) -> Option<Op> {
    if b == PLUS {
        Some(Op::Add)
    } else if b == MINUS {
        Some(Op::Subtract)
    } else {
        None
    }
}

/// The operator that the byte `b` writes between two factors.
pub open spec fn multiplicative_op(b: u8) -> Option<Op> {
    if b == STAR {
        Some(Op::Multiply)
    } else if b == SLASH {
        Some(Op::Divide)
    } else {
        None
    }
}

/// The byte that writes an operator.
pub open spec fn op_byte(op: Op) -> u8 {
    match op {
        Op::Add => PLUS,
        Op::Subtract => MINUS,
        Op::Multiply => STAR,
        Op::Divide => SLASH,
        Op::Power => CARET,
    }
}

/// The number of bytes of `s` from `pos` on, zero where `pos` is past the end.
pub open spec fn remaining(s: Seq<u8>, pos: nat) -> nat {
    if pos <= s.len() {
        (s.len() - pos) as nat
    } else {
        0
    }
}

/// The number of whitespace bytes that stand side by side from `pos` on.
pub open spec fn space_run(s: Seq<u8>, pos: nat) -> nat
    decreases remaining(s, pos),
{
    if pos < s.len() && is_space(s[pos as int]) {
        1 + space_run(s, pos + 1)
    } else {
        0
    }
}

/// The number of digits that stand side by side from `pos` on.
pub open spec fn digit_run(s: Seq<u8>, pos: nat) -> nat
    decreases remaining(s, pos),
{
    if pos < s.len() && is_digit(s[pos as int]) {
        1 + digit_run(s, pos + 1)
    } else {
        0
    }
}

/// The place of the first byte from `pos` on that is no whitespace.
pub open spec fn skip_space(s: Seq<u8>, pos: nat) -> nat {
    pos + space_run(s, pos)
}

/// Whether the bytes `w` stand in `s` from `pos` on.
pub open spec fn holds_at(s: Seq<u8>, pos: nat, w: Seq<u8>) -> bool {
    pos + w.len() <= s.len() && s.subrange(pos as int, (pos + w.len()) as int) == w
}

/// The first byte from `pos` on that is no whitespace, if there is one.
pub open spec fn next_byte(s: Seq<u8>, pos: nat) -> Option<u8> {
    let p = skip_space(s, pos);
    if p < s.len() {
        Some(s[p as int])
    } else {
        None
    }
}

/// Whether no digit stands at `pos`.
pub open spec fn no_digit_at(s: Seq<u8>, pos: nat) -> bool {
    pos >= s.len() || !is_digit(s[pos as int])
}

/// Whether a byte that continues a power follows `pos`: a `^`.
pub open spec fn power_follows(s: Seq<u8>, pos: nat) -> bool {
    next_byte(s, pos) == Some(CARET)
}

/// Whether a byte that continues a term follows `pos`: `*` or `/`.
pub open spec fn product_follows(s: Seq<u8>, pos: nat) -> bool {
    next_byte(s, pos) == Some(STAR) || next_byte(s, pos) == Some(SLASH)
}

/// Whether a byte that continues an expression follows `pos`: `+` or `-`.
pub open spec fn sum_follows(s: Seq<u8>, pos: nat) -> bool {
    next_byte(s, pos) == Some(PLUS) || next_byte(s, pos) == Some(MINUS)
}

/// The kind of token that starts at `pos`.
pub open spec fn found_at(s: Seq<u8>, pos: nat) -> Found {
    if pos >= s.len() {
        Found::EndOfInput
    } else {
        let b = s[pos as int];
        if is_digit(b) {
            Found::Number
        } else if b == PLUS {
            Found::Operator(Op::Add)
        } else if b == MINUS {
            Found::Operator(Op::Subtract)
        } else if b == STAR {
            Found::Operator(Op::Multiply)
        } else if b == SLASH {
            Found::Operator(Op::Divide)
        } else if b == CARET {
            Found::Operator(Op::Power)
        } else if b == OPEN {
            Found::OpenParen
        } else if b == CLOSE {
            Found::CloseParen
        } else {
            Found::Other
        }
    }
}

/// The error of a token at `pos` that is none of those `expected` there.
pub open spec fn failure(s: Seq<u8>, pos: nat, expected: Expected) -> SyntaxErrorView {
    SyntaxErrorView { position: pos, expected, found: found_at(s, pos) }
}

/// What a rule gives: the tree of what it matched and the number of bytes
/// that it took from its start, or the error.
pub type Parsed = Result<(PairView, nat), SyntaxErrorView>;

/// What the repeated part of a rule gives: its operands, each with the
/// operator before it, and the number of bytes taken.
pub type ParsedChain = Result<(Seq<(Op, PairView)>, nat), SyntaxErrorView>;

/// What the repeated part of `power_term` gives: the exponents and the number
/// of bytes taken.
pub type ParsedExponents = Result<(Seq<PairView>, nat), SyntaxErrorView>;

/// `primary = integer | "(" expr ")"`. Where neither starts at the next
/// token, that token is reported as none of those that `lead` names.
#[verifier::opaque]
pub open spec fn parse_primary(s: Seq<u8>, pos: nat, lead: Expected) -> Parsed
    decreases remaining(s, pos), 0nat,
{
    let p = skip_space(s, pos);
    if p < s.len() && is_digit(s[p as int]) {
        let end = p + digit_run(s, p);
        Ok((
            PairView::Primary(Box::new(PairView::Int(s.subrange(p as int, end as int)))),
            (end - pos) as nat,
        ))
    } else if p < s.len() && s[p as int] == OPEN {
        match parse_expr(s, p + 1) {
            Err(e) => Err(e),
            Ok((inner, n)) => {
                let q = skip_space(s, p + 1 + n);
                if q < s.len() && s[q as int] == CLOSE {
                    Ok((PairView::Primary(Box::new(inner)), (q + 1 - pos) as nat))
                } else {
                    Err(failure(s, q, Expected::OperatorOrClose))
                }
            },
        }
    } else {
        Err(failure(s, p, lead))
    }
}

/// The repeated part of `power_term`: `{ "^" factor }`, from `pos` on.
#[verifier::opaque]
pub open spec fn parse_exponents(s: Seq<u8>, pos: nat) -> ParsedExponents
    decreases remaining(s, pos), 1nat,
{
    let p = skip_space(s, pos);
    if p < s.len() && s[p as int] == CARET {
        match parse_factor(s, p + 1) {
            Err(e) => Err(e),
            Ok((exponent, n)) => match parse_exponents(s, p + 1 + n) {
                Err(e) => Err(e),
                Ok((more, m)) => Ok((seq![exponent] + more, (p + 1 + n + m - pos) as nat)),
            },
        }
    } else {
        Ok((Seq::empty(), 0))
    }
}

/// `power_term = primary { "^" factor }`.
#[verifier::opaque]
pub open spec fn parse_power_term(s: Seq<u8>, pos: nat, lead: Expected) -> Parsed
    decreases remaining(s, pos), 2nat,
{
    match parse_primary(s, pos, lead) {
        Err(e) => Err(e),
        Ok((base, n)) => match parse_exponents(s, pos + n) {
            Err(e) => Err(e),
            Ok((exponents, m)) => Ok((
                PairView::PowerTerm { base: Box::new(base), exponents },
                n + m,
            )),
        },
    }
}

/// `factor = [ "-" ] power_term`.
#[verifier::opaque]
pub open spec fn parse_factor(s: Seq<u8>, pos: nat) -> Parsed
    decreases remaining(s, pos), 3nat,
{
    let p = skip_space(s, pos);
    if p < s.len() && s[p as int] == MINUS {
        match parse_power_term(s, p + 1, Expected::Primary) {
            Err(e) => Err(e),
            Ok((operand, n)) => Ok((
                PairView::Factor { negated: true, operand: Box::new(operand) },
                (p + 1 + n - pos) as nat,
            )),
        }
    } else {
        match parse_power_term(s, pos, Expected::Operand) {
            Err(e) => Err(e),
            Ok((operand, n)) => Ok((
                PairView::Factor { negated: false, operand: Box::new(operand) },
                n,
            )),
        }
    }
}

/// The repeated part of `term`: `{ ("*" | "/") factor }`, from `pos` on.
#[verifier::opaque]
pub open spec fn parse_factors(s: Seq<u8>, pos: nat) -> ParsedChain
    decreases remaining(s, pos), 4nat,
{
    let p = skip_space(s, pos);
    if p < s.len() && multiplicative_op(s[p as int]) is Some {
        match parse_factor(s, p + 1) {
            Err(e) => Err(e),
            Ok((operand, n)) => match parse_factors(s, p + 1 + n) {
                Err(e) => Err(e),
                Ok((more, m)) => Ok((
                    seq![(multiplicative_op(s[p as int])->0, operand)] + more,
                    (p + 1 + n + m - pos) as nat,
                )),
            },
        }
    } else {
        Ok((Seq::empty(), 0))
    }
}

/// `term = factor { ("*" | "/") factor }`.
#[verifier::opaque]
pub open spec fn parse_term(s: Seq<u8>, pos: nat) -> Parsed
    decreases remaining(s, pos), 5nat,
{
    match parse_factor(s, pos) {
        Err(e) => Err(e),
        Ok((first, n)) => match parse_factors(s, pos + n) {
            Err(e) => Err(e),
            Ok((rest, m)) => Ok((PairView::Term { first: Box::new(first), rest }, n + m)),
        },
    }
}

/// The repeated part of `expr`: `{ ("+" | "-") term }`, from `pos` on.
#[verifier::opaque]
pub open spec fn parse_terms(s: Seq<u8>, pos: nat) -> ParsedChain
    decreases remaining(s, pos), 6nat,
{
    let p = skip_space(s, pos);
    if p < s.len() && additive_op(s[p as int]) is Some {
        match parse_term(s, p + 1) {
            Err(e) => Err(e),
            Ok((operand, n)) => match parse_terms(s, p + 1 + n) {
                Err(e) => Err(e),
                Ok((more, m)) => Ok((
                    seq![(additive_op(s[p as int])->0, operand)] + more,
                    (p + 1 + n + m - pos) as nat,
                )),
            },
        }
    } else {
        Ok((Seq::empty(), 0))
    }
}

/// `expr = term { ("+" | "-") term }`.
#[verifier::opaque]
pub open spec fn parse_expr(s: Seq<u8>, pos: nat) -> Parsed
    decreases remaining(s, pos), 7nat,
{
    match parse_term(s, pos) {
        Err(e) => Err(e),
        Ok((first, n)) => match parse_terms(s, pos + n) {
            Err(e) => Err(e),
            Ok((rest, m)) => Ok((PairView::Expr { first: Box::new(first), rest }, n + m)),
        },
    }
}

/// The root rule: one `expr` that covers the whole input. What follows a
/// complete expression other than whitespace is an error.
pub open spec fn parse_input(s: Seq<u8>) -> Result<PairView, SyntaxErrorView> {
    match parse_expr(s, 0) {
        Err(e) => Err(e),
        Ok((tree, n)) => {
            let q = skip_space(s, n);
            if q >= s.len() {
                Ok(tree)
            } else {
                Err(failure(s, q, Expected::OperatorOrEnd))
            }
        },
    }
}

/// The rule of `parse_primary`, as an equation.
pub proof fn lemma_parse_primary(s: Seq<u8>, pos: nat, lead: Expected)
    ensures
        parse_primary(s, pos, lead) == ({
            let p = skip_space(s, pos);
            if p < s.len() && is_digit(s[p as int]) {
                let end = p + digit_run(s, p);
                Ok((
                    PairView::Primary(Box::new(PairView::Int(s.subrange(p as int, end as int)))),
                    (end - pos) as nat,
                ))
            } else if p < s.len() && s[p as int] == OPEN {
                match parse_expr(s, p + 1) {
                    Err(e) => Err(e),
                    Ok((inner, n)) => {
                        let q = skip_space(s, p + 1 + n);
                        if q < s.len() && s[q as int] == CLOSE {
                            Ok((PairView::Primary(Box::new(inner)), (q + 1 - pos) as nat))
                        } else {
                            Err(failure(s, q, Expected::OperatorOrClose))
                        }
                    },
                }
            } else {
                Err(failure(s, p, lead))
            }
        }),
{
    reveal(parse_primary);
    reveal(parse_expr);
}

/// The rule of `parse_exponents`, as an equation.
pub proof fn lemma_parse_exponents(s: Seq<u8>, pos: nat)
    ensures
        parse_exponents(s, pos) == ({
            let p = skip_space(s, pos);
            if p < s.len() && s[p as int] == CARET {
                match parse_factor(s, p + 1) {
                    Err(e) => Err(e),
                    Ok((exponent, n)) => match parse_exponents(s, p + 1 + n) {
                        Err(e) => Err(e),
                        Ok((more, m)) => Ok((seq![exponent] + more, (p + 1 + n + m - pos) as nat)),
                    },
                }
            } else {
                Ok((Seq::empty(), 0))
            }
        }),
{
    reveal(parse_exponents);
    reveal(parse_factor);
}

/// The rule of `parse_power_term`, as an equation.
pub proof fn lemma_parse_power_term(s: Seq<u8>, pos: nat, lead: Expected)
    ensures
        parse_power_term(s, pos, lead) == ({
            match parse_primary(s, pos, lead) {
                Err(e) => Err(e),
                Ok((base, n)) => match parse_exponents(s, pos + n) {
                    Err(e) => Err(e),
                    Ok((exponents, m)) => Ok((
                        PairView::PowerTerm { base: Box::new(base), exponents },
                        n + m,
                    )),
                },
            }
        }),
{
    reveal(parse_power_term);
    reveal(parse_primary);
    reveal(parse_exponents);
}

/// The rule of `parse_factor`, as an equation.
pub proof fn lemma_parse_factor(s: Seq<u8>, pos: nat)
    ensures
        parse_factor(s, pos) == ({
            let p = skip_space(s, pos);
            if p < s.len() && s[p as int] == MINUS {
                match parse_power_term(s, p + 1, Expected::Primary) {
                    Err(e) => Err(e),
                    Ok((operand, n)) => Ok((
                        PairView::Factor { negated: true, operand: Box::new(operand) },
                        (p + 1 + n - pos) as nat,
                    )),
                }
            } else {
                match parse_power_term(s, pos, Expected::Operand) {
                    Err(e) => Err(e),
                    Ok((operand, n)) => Ok((
                        PairView::Factor { negated: false, operand: Box::new(operand) },
                        n,
                    )),
                }
            }
        }),
{
    reveal(parse_factor);
    reveal(parse_power_term);
}

/// The rule of `parse_factors`, as an equation.
pub proof fn lemma_parse_factors(s: Seq<u8>, pos: nat)
    ensures
        parse_factors(s, pos) == ({
            let p = skip_space(s, pos);
            if p < s.len() && multiplicative_op(s[p as int]) is Some {
                match parse_factor(s, p + 1) {
                    Err(e) => Err(e),
                    Ok((operand, n)) => match parse_factors(s, p + 1 + n) {
                        Err(e) => Err(e),
                        Ok((more, m)) => Ok((
                            seq![(multiplicative_op(s[p as int])->0, operand)] + more,
                            (p + 1 + n + m - pos) as nat,
                        )),
                    },
                }
            } else {
                Ok((Seq::empty(), 0))
            }
        }),
{
    reveal(parse_factors);
    reveal(parse_factor);
}

/// The rule of `parse_term`, as an equation.
pub proof fn lemma_parse_term(s: Seq<u8>, pos: nat)
    ensures
        parse_term(s, pos) == ({
            match parse_factor(s, pos) {
                Err(e) => Err(e),
                Ok((first, n)) => match parse_factors(s, pos + n) {
                    Err(e) => Err(e),
                    Ok((rest, m)) => Ok((PairView::Term { first: Box::new(first), rest }, n + m)),
                },
            }
        }),
{
    reveal(parse_term);
    reveal(parse_factor);
    reveal(parse_factors);
}

/// The rule of `parse_terms`, as an equation.
pub proof fn lemma_parse_terms(s: Seq<u8>, pos: nat)
    ensures
        parse_terms(s, pos) == ({
            let p = skip_space(s, pos);
            if p < s.len() && additive_op(s[p as int]) is Some {
                match parse_term(s, p + 1) {
                    Err(e) => Err(e),
                    Ok((operand, n)) => match parse_terms(s, p + 1 + n) {
                        Err(e) => Err(e),
                        Ok((more, m)) => Ok((
                            seq![(additive_op(s[p as int])->0, operand)] + more,
                            (p + 1 + n + m - pos) as nat,
                        )),
                    },
                }
            } else {
                Ok((Seq::empty(), 0))
            }
        }),
{
    reveal(parse_terms);
    reveal(parse_term);
}

/// The rule of `parse_expr`, as an equation.
pub proof fn lemma_parse_expr(s: Seq<u8>, pos: nat)
    ensures
        parse_expr(s, pos) == ({
            match parse_term(s, pos) {
                Err(e) => Err(e),
                Ok((first, n)) => match parse_terms(s, pos + n) {
                    Err(e) => Err(e),
                    Ok((rest, m)) => Ok((PairView::Expr { first: Box::new(first), rest }, n + m)),
                },
            }
        }),
{
    reveal(parse_expr);
    reveal(parse_term);
    reveal(parse_terms);
}

} // verus!

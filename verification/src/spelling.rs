//! A parse tree spells the input that it was read from: the proofs, rule by
//! rule.

use vstd::prelude::*;
use crate::ast::Op;
use crate::error::Expected;
use crate::grammar::{
    additive_op, digit_run, is_digit, is_space, lemma_parse_exponents, lemma_parse_expr,
    lemma_parse_factor, lemma_parse_factors, lemma_parse_power_term, lemma_parse_primary,
    lemma_parse_term, lemma_parse_terms, multiplicative_op, parse_exponents, parse_expr,
    parse_factor, parse_factors, parse_power_term, parse_primary, parse_term, parse_terms,
    remaining, skip_space, CARET, CLOSE, MINUS, OPEN,
};
use crate::shape::{
    lemma_digit_run_bound, lemma_exponents_within, lemma_expr_within, lemma_factor_within,
    lemma_factors_within, lemma_power_term_within, lemma_primary_within, lemma_space_run_bound,
    lemma_term_within, lemma_terms_within,
};
use crate::tree::{chain_spelling, exponents_spelling, PairView};

verus! {

/// The bytes of `s` that are no whitespace, in their order.
pub open spec fn without_space(s: Seq<u8>) -> Seq<u8> {
    s.filter(|b: u8| !is_space(b))
}

/// The bytes of `s` from `from` up to `to` that are no whitespace.
pub open spec fn piece(s: Seq<u8>, from: nat, to: nat) -> Seq<u8> {
    without_space(s.subrange(from as int, to as int))
}

/// What is left of two texts side by side is what is left of each, side by side.
pub proof fn lemma_piece_join(s: Seq<u8>, a: nat, b: nat, c: nat)
    requires
        a <= b <= c <= s.len(),
    ensures
        piece(s, a, c) == piece(s, a, b) + piece(s, b, c),
{
    let left = s.subrange(a as int, b as int);
    let right = s.subrange(b as int, c as int);
    assert(s.subrange(a as int, c as int) =~= left + right);
    Seq::filter_distributes_over_add(left, right, |b: u8| !is_space(b));
}

/// Nothing is left of no text.
pub proof fn lemma_piece_empty(s: Seq<u8>, a: nat)
    requires
        a <= s.len(),
    ensures
        piece(s, a, a) == Seq::<u8>::empty(),
{
    reveal(Seq::filter);
    assert(s.subrange(a as int, a as int).len() == 0);
}

/// A byte that is no whitespace is left as it is, and nothing is left of one that is.
pub proof fn lemma_piece_byte(s: Seq<u8>, p: nat)
    requires
        p < s.len(),
    ensures
        piece(s, p, p + 1) == if is_space(s[p as int]) {
            Seq::<u8>::empty()
        } else {
            seq![s[p as int]]
        },
{
    reveal_with_fuel(Seq::filter, 2);
    let one = s.subrange(p as int, (p + 1) as int);
    assert(one.len() == 1);
    assert(one.last() == s[p as int]);
    assert(one.drop_last().len() == 0);
    let pred = |b: u8| !is_space(b);
    assert(one.drop_last().filter(pred) =~= Seq::<u8>::empty());
    if is_space(s[p as int]) {
        assert(one.filter(pred) =~= Seq::<u8>::empty());
    } else {
        assert(one.filter(pred) =~= seq![s[p as int]]);
    }
}

/// Nothing is left of a run of whitespace.
pub proof fn lemma_piece_space(s: Seq<u8>, pos: nat)
    requires
        pos <= s.len(),
    ensures
        piece(s, pos, skip_space(s, pos)) == Seq::<u8>::empty(),
    decreases remaining(s, pos),
{
    if pos < s.len() && is_space(s[pos as int]) {
        lemma_space_run_bound(s, pos + 1);
        lemma_piece_space(s, pos + 1);
        lemma_piece_byte(s, pos);
        lemma_piece_join(s, pos, pos + 1, skip_space(s, pos));
    } else {
        lemma_piece_empty(s, pos);
    }
}

/// A run of digits is left as it is.
pub proof fn lemma_piece_digits(s: Seq<u8>, pos: nat)
    requires
        pos <= s.len(),
    ensures
        piece(s, pos, pos + digit_run(s, pos)) == s.subrange(
            pos as int,
            (pos + digit_run(s, pos)) as int,
        ),
    decreases remaining(s, pos),
{
    if pos < s.len() && is_digit(s[pos as int]) {
        let end = pos + digit_run(s, pos);
        lemma_digit_run_bound(s, pos + 1);
        lemma_piece_digits(s, pos + 1);
        lemma_piece_byte(s, pos);
        lemma_piece_join(s, pos, pos + 1, end);
        assert(s.subrange(pos as int, end as int) =~= seq![s[pos as int]] + s.subrange(
            (pos + 1) as int,
            end as int,
        ));
    } else {
        lemma_piece_empty(s, pos);
        assert(s.subrange(pos as int, pos as int) =~= Seq::<u8>::empty());
    }
}

/// The exponents after the first spell what the sequence spells from the
/// second on.
pub proof fn lemma_exponents_shift(first: PairView, more: Seq<PairView>, from: nat)
    ensures
        exponents_spelling(seq![first] + more, from + 1) == exponents_spelling(more, from),
    decreases more.len() - from,
{
    let all = seq![first] + more;
    if from < more.len() {
        lemma_exponents_shift(first, more, from + 1);
        assert(all[(from + 1) as int] == more[from as int]);
    }
}

/// The operands after the first spell what the chain spells from the second on.
pub proof fn lemma_chain_shift(first: (Op, PairView), more: Seq<(Op, PairView)>, from: nat)
    ensures
        chain_spelling(seq![first] + more, from + 1) == chain_spelling(more, from),
    decreases more.len() - from,
{
    let all = seq![first] + more;
    if from < more.len() {
        lemma_chain_shift(first, more, from + 1);
        assert(all[(from + 1) as int] == more[from as int]);
    }
}

/// What `primary` read spells the bytes that it took.
pub proof fn lemma_primary_spells(s: Seq<u8>, pos: nat, lead: Expected)
    requires
        pos <= s.len(),
    ensures
        parse_primary(s, pos, lead) matches Ok((tree, n)) ==> tree.spelling() == piece(
            s,
            pos,
            pos + n,
        ),
    decreases remaining(s, pos), 0nat,
{
    lemma_parse_primary(s, pos, lead);
    lemma_primary_within(s, pos, lead);
    lemma_space_run_bound(s, pos);
    lemma_piece_space(s, pos);
    let p = skip_space(s, pos);
    if p < s.len() && is_digit(s[p as int]) {
        let end = p + digit_run(s, p);
        lemma_digit_run_bound(s, p);
        lemma_piece_digits(s, p);
        lemma_piece_join(s, pos, p, end);
        let digits = s.subrange(p as int, end as int);
        assert(Seq::<u8>::empty() + digits =~= digits);
        assert(PairView::Int(digits).spelling() == digits);
    } else if p < s.len() && s[p as int] == OPEN {
        lemma_expr_spells(s, p + 1);
        lemma_expr_within(s, p + 1);
        if let Ok((inner, n)) = parse_expr(s, p + 1) {
            let e = p + 1 + n;
            let q = skip_space(s, e);
            lemma_space_run_bound(s, e);
            lemma_piece_space(s, e);
            if q < s.len() && s[q as int] == CLOSE {
                lemma_piece_byte(s, p);
                lemma_piece_byte(s, q);
                lemma_piece_join(s, pos, p, q + 1);
                lemma_piece_join(s, p, p + 1, q + 1);
                lemma_piece_join(s, p + 1, e, q + 1);
                lemma_piece_join(s, e, q, q + 1);
                let tree = PairView::Primary(Box::new(inner));
                assert(tree.spelling() == seq![OPEN] + inner.spelling() + seq![CLOSE]);
                assert(piece(s, pos, q + 1) =~= seq![OPEN] + inner.spelling() + seq![CLOSE]);
            }
        }
    }
}

/// What the repeated part of `power_term` read spells the bytes that it took.
pub proof fn lemma_exponents_spell(s: Seq<u8>, pos: nat)
    requires
        pos <= s.len(),
    ensures
        parse_exponents(s, pos) matches Ok((exponents, m)) ==> exponents_spelling(exponents, 0)
            == piece(s, pos, pos + m),
    decreases remaining(s, pos), 1nat,
{
    lemma_parse_exponents(s, pos);
    lemma_exponents_within(s, pos);
    lemma_space_run_bound(s, pos);
    lemma_piece_space(s, pos);
    let p = skip_space(s, pos);
    if p < s.len() && s[p as int] == CARET {
        lemma_factor_spells(s, p + 1);
        lemma_factor_within(s, p + 1);
        if let Ok((exponent, n)) = parse_factor(s, p + 1) {
            let e = p + 1 + n;
            lemma_exponents_spell(s, e);
            lemma_exponents_within(s, e);
            if let Ok((more, m)) = parse_exponents(s, e) {
                let all = seq![exponent] + more;
                lemma_exponents_shift(exponent, more, 0);
                lemma_piece_byte(s, p);
                lemma_piece_join(s, pos, p, e + m);
                lemma_piece_join(s, p, p + 1, e + m);
                lemma_piece_join(s, p + 1, e, e + m);
                assert(all[0] == exponent);
                assert(exponents_spelling(all, 0) == seq![CARET] + exponent.spelling()
                    + exponents_spelling(all, 1));
                assert(piece(s, pos, e + m) =~= seq![CARET] + exponent.spelling()
                    + exponents_spelling(more, 0));
            }
        }
    } else {
        lemma_piece_empty(s, pos);
    }
}

/// What `power_term` read spells the bytes that it took.
pub proof fn lemma_power_term_spells(s: Seq<u8>, pos: nat, lead: Expected)
    requires
        pos <= s.len(),
    ensures
        parse_power_term(s, pos, lead) matches Ok((tree, n)) ==> tree.spelling() == piece(
            s,
            pos,
            pos + n,
        ),
    decreases remaining(s, pos), 2nat,
{
    lemma_parse_power_term(s, pos, lead);
    lemma_primary_spells(s, pos, lead);
    lemma_primary_within(s, pos, lead);
    if let Ok((base, n)) = parse_primary(s, pos, lead) {
        lemma_exponents_spell(s, pos + n);
        lemma_exponents_within(s, pos + n);
        if let Ok((exponents, m)) = parse_exponents(s, pos + n) {
            lemma_piece_join(s, pos, pos + n, pos + n + m);
        }
    }
}

/// What `factor` read spells the bytes that it took.
pub proof fn lemma_factor_spells(s: Seq<u8>, pos: nat)
    requires
        pos <= s.len(),
    ensures
        parse_factor(s, pos) matches Ok((tree, n)) ==> tree.spelling() == piece(s, pos, pos + n),
    decreases remaining(s, pos), 3nat,
{
    lemma_parse_factor(s, pos);
    lemma_space_run_bound(s, pos);
    lemma_piece_space(s, pos);
    let p = skip_space(s, pos);
    if p < s.len() && s[p as int] == MINUS {
        lemma_power_term_spells(s, p + 1, Expected::Primary);
        lemma_power_term_within(s, p + 1, Expected::Primary);
        if let Ok((operand, n)) = parse_power_term(s, p + 1, Expected::Primary) {
            let e = p + 1 + n;
            lemma_piece_byte(s, p);
            lemma_piece_join(s, pos, p, e);
            lemma_piece_join(s, p, p + 1, e);
            assert(piece(s, pos, e) =~= seq![MINUS] + operand.spelling());
        }
    } else {
        lemma_power_term_spells(s, pos, Expected::Operand);
    }
}

/// What the repeated part of `term` read spells the bytes that it took.
pub proof fn lemma_factors_spell(s: Seq<u8>, pos: nat)
    requires
        pos <= s.len(),
    ensures
        parse_factors(s, pos) matches Ok((rest, m)) ==> chain_spelling(rest, 0) == piece(
            s,
            pos,
            pos + m,
        ),
    decreases remaining(s, pos), 4nat,
{
    lemma_parse_factors(s, pos);
    lemma_factors_within(s, pos);
    lemma_space_run_bound(s, pos);
    lemma_piece_space(s, pos);
    let p = skip_space(s, pos);
    if p < s.len() && multiplicative_op(s[p as int]) is Some {
        lemma_factor_spells(s, p + 1);
        lemma_factor_within(s, p + 1);
        if let Ok((operand, n)) = parse_factor(s, p + 1) {
            let e = p + 1 + n;
            lemma_factors_spell(s, e);
            lemma_factors_within(s, e);
            if let Ok((more, m)) = parse_factors(s, e) {
                let op = multiplicative_op(s[p as int])->0;
                let all = seq![(op, operand)] + more;
                lemma_chain_shift((op, operand), more, 0);
                lemma_piece_byte(s, p);
                lemma_piece_join(s, pos, p, e + m);
                lemma_piece_join(s, p, p + 1, e + m);
                lemma_piece_join(s, p + 1, e, e + m);
                assert(all[0] == (op, operand));
                assert(chain_spelling(all, 0) == seq![s[p as int]] + operand.spelling()
                    + chain_spelling(all, 1));
                assert(piece(s, pos, e + m) =~= seq![s[p as int]] + operand.spelling()
                    + chain_spelling(more, 0));
            }
        }
    } else {
        lemma_piece_empty(s, pos);
    }
}

/// What `term` read spells the bytes that it took.
pub proof fn lemma_term_spells(s: Seq<u8>, pos: nat)
    requires
        pos <= s.len(),
    ensures
        parse_term(s, pos) matches Ok((tree, n)) ==> tree.spelling() == piece(s, pos, pos + n),
    decreases remaining(s, pos), 5nat,
{
    lemma_parse_term(s, pos);
    lemma_factor_spells(s, pos);
    lemma_factor_within(s, pos);
    if let Ok((first, n)) = parse_factor(s, pos) {
        lemma_factors_spell(s, pos + n);
        lemma_factors_within(s, pos + n);
        if let Ok((rest, m)) = parse_factors(s, pos + n) {
            lemma_piece_join(s, pos, pos + n, pos + n + m);
        }
    }
}

/// What the repeated part of `expr` read spells the bytes that it took.
pub proof fn lemma_terms_spell(s: Seq<u8>, pos: nat)
    requires
        pos <= s.len(),
    ensures
        parse_terms(s, pos) matches Ok((rest, m)) ==> chain_spelling(rest, 0) == piece(
            s,
            pos,
            pos + m,
        ),
    decreases remaining(s, pos), 6nat,
{
    lemma_parse_terms(s, pos);
    lemma_terms_within(s, pos);
    lemma_space_run_bound(s, pos);
    lemma_piece_space(s, pos);
    let p = skip_space(s, pos);
    if p < s.len() && additive_op(s[p as int]) is Some {
        lemma_term_spells(s, p + 1);
        lemma_term_within(s, p + 1);
        if let Ok((operand, n)) = parse_term(s, p + 1) {
            let e = p + 1 + n;
            lemma_terms_spell(s, e);
            lemma_terms_within(s, e);
            if let Ok((more, m)) = parse_terms(s, e) {
                let op = additive_op(s[p as int])->0;
                let all = seq![(op, operand)] + more;
                lemma_chain_shift((op, operand), more, 0);
                lemma_piece_byte(s, p);
                lemma_piece_join(s, pos, p, e + m);
                lemma_piece_join(s, p, p + 1, e + m);
                lemma_piece_join(s, p + 1, e, e + m);
                assert(all[0] == (op, operand));
                assert(chain_spelling(all, 0) == seq![s[p as int]] + operand.spelling()
                    + chain_spelling(all, 1));
                assert(piece(s, pos, e + m) =~= seq![s[p as int]] + operand.spelling()
                    + chain_spelling(more, 0));
            }
        }
    } else {
        lemma_piece_empty(s, pos);
    }
}

/// What `expr` read spells the bytes that it took.
pub proof fn lemma_expr_spells(s: Seq<u8>, pos: nat)
    requires
        pos <= s.len(),
    ensures
        parse_expr(s, pos) matches Ok((tree, n)) ==> tree.spelling() == piece(s, pos, pos + n),
    decreases remaining(s, pos), 7nat,
{
    lemma_parse_expr(s, pos);
    lemma_term_spells(s, pos);
    lemma_term_within(s, pos);
    if let Ok((first, n)) = parse_term(s, pos) {
        lemma_terms_spell(s, pos + n);
        lemma_terms_within(s, pos + n);
        if let Ok((rest, m)) = parse_terms(s, pos + n) {
            lemma_piece_join(s, pos, pos + n, pos + n + m);
        }
    }
}

} // verus!

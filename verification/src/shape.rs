//! What the grammar gives has the shape of the grammar and lies within the
//! input: the proofs, rule by rule.

use vstd::prelude::*;
use crate::error::Expected;
use crate::grammar::{
    additive_op, digit_run, is_digit, is_number, is_space, lemma_parse_exponents, lemma_parse_expr,
    lemma_parse_factor, lemma_parse_factors, lemma_parse_power_term, lemma_parse_primary,
    lemma_parse_term, lemma_parse_terms, multiplicative_op, parse_exponents, parse_expr,
    parse_factor, parse_factors, parse_power_term, parse_primary, parse_term, parse_terms,
    power_follows, remaining, skip_space, Parsed, ParsedChain, ParsedExponents, CARET, MINUS, OPEN,
};
use crate::tree::PairView;

verus! {

/// A run of whitespace ends within the input.
pub proof fn lemma_space_run_bound(s: Seq<u8>, pos: nat)
    requires
        pos <= s.len(),
    ensures
        skip_space(s, pos) <= s.len(),
    decreases remaining(s, pos),
{
    if pos < s.len() && is_space(s[pos as int]) {
        lemma_space_run_bound(s, pos + 1);
    }
}

/// A run of digits ends within the input and holds digits only.
pub proof fn lemma_digit_run_bound(s: Seq<u8>, pos: nat)
    requires
        pos <= s.len(),
    ensures
        pos + digit_run(s, pos) <= s.len(),
        forall|i: int| pos <= i < pos + digit_run(s, pos) ==> is_digit(#[trigger] s[i]),
    decreases remaining(s, pos),
{
    if pos < s.len() && is_digit(s[pos as int]) {
        lemma_digit_run_bound(s, pos + 1);
    }
}

/// Whether a rule that started at `pos` gave a tree that conforms and nests
/// its powers, and an end within the input after at least one byte; or an
/// error at a place of the input.
pub open spec fn within(r: Parsed, s: Seq<u8>, pos: nat) -> bool {
    match r {
        Ok((tree, n)) => tree.conforms() && tree.nests_powers() && n > 0 && pos + n <= s.len(),
        Err(e) => pos <= e.position <= s.len(),
    }
}

/// Whether the repeated part of `expr` (where `terms` holds) or of `term`
/// that started at `pos` gave operands that conform, each of the kind and
/// after an operator of its level, and an end within the input; or an error
/// at a place of the input.
pub open spec fn chain_within(r: ParsedChain, s: Seq<u8>, pos: nat, terms: bool) -> bool {
    match r {
        Ok((rest, m)) => pos + m <= s.len() && forall|i: int|
            0 <= i < rest.len() ==> {
                &&& (#[trigger] rest[i]).1.conforms()
                &&& rest[i].1.nests_powers()
                &&& if terms {
                    (rest[i].0 is Add || rest[i].0 is Subtract) && rest[i].1 is Term
                } else {
                    (rest[i].0 is Multiply || rest[i].0 is Divide) && rest[i].1 is Factor
                }
            },
        Err(e) => pos <= e.position <= s.len(),
    }
}

/// Whether the repeated part of `power_term` that started at `pos` gave at
/// most one factor, which conforms, and an end within the input; or an error
/// at a place of the input.
pub open spec fn exponents_within(r: ParsedExponents, s: Seq<u8>, pos: nat) -> bool {
    match r {
        Ok((exponents, m)) => pos + m <= s.len() && exponents.len() <= 1 && forall|i: int|
            0 <= i < exponents.len() ==> (#[trigger] exponents[i]) is Factor
                && exponents[i].conforms() && exponents[i].nests_powers(),
        Err(e) => pos <= e.position <= s.len(),
    }
}

/// No `^` follows where the repeated part of `power_term` ended: it took
/// every exponent that stands there.
pub proof fn lemma_exponents_end(s: Seq<u8>, pos: nat)
    ensures
        parse_exponents(s, pos) matches Ok((_, m)) ==> !power_follows(s, pos + m),
    decreases remaining(s, pos),
{
    lemma_parse_exponents(s, pos);
    let p = skip_space(s, pos);
    if p < s.len() && s[p as int] == CARET {
        if let Ok((exponent, n)) = parse_factor(s, p + 1) {
            lemma_exponents_end(s, p + 1 + n);
        }
    }
}

/// No `^` follows where a `factor` ended.
pub proof fn lemma_factor_end(s: Seq<u8>, pos: nat)
    ensures
        parse_factor(s, pos) matches Ok((_, n)) ==> !power_follows(s, pos + n),
{
    lemma_parse_factor(s, pos);
    let p = skip_space(s, pos);
    if p < s.len() && s[p as int] == MINUS {
        lemma_parse_power_term(s, p + 1, Expected::Primary);
        if let Ok((base, n)) = parse_primary(s, p + 1, Expected::Primary) {
            lemma_exponents_end(s, p + 1 + n);
        }
    } else {
        lemma_parse_power_term(s, pos, Expected::Operand);
        if let Ok((base, n)) = parse_primary(s, pos, Expected::Operand) {
            lemma_exponents_end(s, pos + n);
        }
    }
}

/// What `primary` gives is a `Primary` node that conforms, within the input.
pub proof fn lemma_primary_within(s: Seq<u8>, pos: nat, lead: Expected)
    requires
        pos <= s.len(),
    ensures
        within(parse_primary(s, pos, lead), s, pos),
        parse_primary(s, pos, lead) matches Ok((tree, _)) ==> tree is Primary,
    decreases remaining(s, pos), 0nat,
{
    lemma_parse_primary(s, pos, lead);
    lemma_space_run_bound(s, pos);
    let p = skip_space(s, pos);
    if p < s.len() && is_digit(s[p as int]) {
        lemma_digit_run_bound(s, p);
        let end = p + digit_run(s, p);
        let digits = s.subrange(p as int, end as int);
        assert(is_number(digits)) by {
            assert forall|i: int| 0 <= i < digits.len() implies is_digit(#[trigger] digits[i]) by {
                assert(digits[i] == s[p + i]);
            }
        }
        assert(PairView::Int(digits).conforms());
        assert(PairView::Int(digits).nests_powers());
    } else if p < s.len() && s[p as int] == OPEN {
        lemma_expr_within(s, p + 1);
        if let Ok((inner, n)) = parse_expr(s, p + 1) {
            lemma_space_run_bound(s, p + 1 + n);
        }
    }
}

/// What the repeated part of `power_term` gives are factors that conform,
/// within the input.
pub proof fn lemma_exponents_within(s: Seq<u8>, pos: nat)
    requires
        pos <= s.len(),
    ensures
        exponents_within(parse_exponents(s, pos), s, pos),
    decreases remaining(s, pos), 1nat,
{
    lemma_parse_exponents(s, pos);
    lemma_space_run_bound(s, pos);
    let p = skip_space(s, pos);
    if p < s.len() && s[p as int] == CARET {
        lemma_factor_within(s, p + 1);
        if let Ok((exponent, n)) = parse_factor(s, p + 1) {
            lemma_exponents_within(s, p + 1 + n);
            if let Ok((more, m)) = parse_exponents(s, p + 1 + n) {
                lemma_factor_end(s, p + 1);
                lemma_parse_exponents(s, p + 1 + n);
                assert(more.len() == 0);
            }
        }
    }
}

/// What `power_term` gives is a `PowerTerm` node that conforms, within the input.
pub proof fn lemma_power_term_within(s: Seq<u8>, pos: nat, lead: Expected)
    requires
        pos <= s.len(),
    ensures
        within(parse_power_term(s, pos, lead), s, pos),
        parse_power_term(s, pos, lead) matches Ok((tree, _)) ==> tree is PowerTerm,
    decreases remaining(s, pos), 2nat,
{
    lemma_parse_power_term(s, pos, lead);
    lemma_primary_within(s, pos, lead);
    if let Ok((base, n)) = parse_primary(s, pos, lead) {
        lemma_exponents_within(s, pos + n);
    }
}

/// What `factor` gives is a `Factor` node that conforms, within the input.
pub proof fn lemma_factor_within(s: Seq<u8>, pos: nat)
    requires
        pos <= s.len(),
    ensures
        within(parse_factor(s, pos), s, pos),
        parse_factor(s, pos) matches Ok((tree, _)) ==> tree is Factor,
    decreases remaining(s, pos), 3nat,
{
    lemma_parse_factor(s, pos);
    lemma_space_run_bound(s, pos);
    let p = skip_space(s, pos);
    if p < s.len() && s[p as int] == MINUS {
        lemma_power_term_within(s, p + 1, Expected::Primary);
    } else {
        lemma_power_term_within(s, pos, Expected::Operand);
    }
}

/// What the repeated part of `term` gives are factors that conform, each
/// after `*` or `/`, within the input.
pub proof fn lemma_factors_within(s: Seq<u8>, pos: nat)
    requires
        pos <= s.len(),
    ensures
        chain_within(parse_factors(s, pos), s, pos, false),
    decreases remaining(s, pos), 4nat,
{
    lemma_parse_factors(s, pos);
    lemma_space_run_bound(s, pos);
    let p = skip_space(s, pos);
    if p < s.len() && multiplicative_op(s[p as int]) is Some {
        lemma_factor_within(s, p + 1);
        if let Ok((operand, n)) = parse_factor(s, p + 1) {
            lemma_factors_within(s, p + 1 + n);
            if let Ok((more, m)) = parse_factors(s, p + 1 + n) {
                let op = multiplicative_op(s[p as int])->0;
                let all = seq![(op, operand)] + more;
                assert forall|i: int| 0 <= i < all.len() implies {
                    &&& (#[trigger] all[i]).1.conforms()
                    &&& all[i].1.nests_powers()
                    &&& (all[i].0 is Multiply || all[i].0 is Divide) && all[i].1 is Factor
                } by {
                    if i > 0 {
                        assert(all[i] == more[i - 1]);
                    }
                }
            }
        }
    }
}

/// What `term` gives is a `Term` node that conforms, within the input.
pub proof fn lemma_term_within(s: Seq<u8>, pos: nat)
    requires
        pos <= s.len(),
    ensures
        within(parse_term(s, pos), s, pos),
        parse_term(s, pos) matches Ok((tree, _)) ==> tree is Term,
    decreases remaining(s, pos), 5nat,
{
    lemma_parse_term(s, pos);
    lemma_factor_within(s, pos);
    if let Ok((first, n)) = parse_factor(s, pos) {
        lemma_factors_within(s, pos + n);
    }
}

/// What the repeated part of `expr` gives are terms that conform, each after
/// `+` or `-`, within the input.
pub proof fn lemma_terms_within(s: Seq<u8>, pos: nat)
    requires
        pos <= s.len(),
    ensures
        chain_within(parse_terms(s, pos), s, pos, true),
    decreases remaining(s, pos), 6nat,
{
    lemma_parse_terms(s, pos);
    lemma_space_run_bound(s, pos);
    let p = skip_space(s, pos);
    if p < s.len() && additive_op(s[p as int]) is Some {
        lemma_term_within(s, p + 1);
        if let Ok((operand, n)) = parse_term(s, p + 1) {
            lemma_terms_within(s, p + 1 + n);
            if let Ok((more, m)) = parse_terms(s, p + 1 + n) {
                let op = additive_op(s[p as int])->0;
                let all = seq![(op, operand)] + more;
                assert forall|i: int| 0 <= i < all.len() implies {
                    &&& (#[trigger] all[i]).1.conforms()
                    &&& all[i].1.nests_powers()
                    &&& (all[i].0 is Add || all[i].0 is Subtract) && all[i].1 is Term
                } by {
                    if i > 0 {
                        assert(all[i] == more[i - 1]);
                    }
                }
            }
        }
    }
}

/// What `expr` gives is an `Expr` node that conforms, within the input.
pub proof fn lemma_expr_within(s: Seq<u8>, pos: nat)
    requires
        pos <= s.len(),
    ensures
        within(parse_expr(s, pos), s, pos),
        parse_expr(s, pos) matches Ok((tree, _)) ==> tree is Expr,
    decreases remaining(s, pos), 7nat,
{
    lemma_parse_expr(s, pos);
    lemma_term_within(s, pos);
    if let Ok((first, n)) = parse_term(s, pos) {
        lemma_terms_within(s, pos + n);
    }
}

} // verus!

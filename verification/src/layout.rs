//! The layout of a parse tree in an input: the tokens of the tree stand in
//! the input in their order, each after any whitespace, and the digits of
//! each number end where the number ends.
//!
//! What the grammar reads from an input is laid out in it, and a tree of the
//! grammar that is laid out in an input is what the grammar reads from it.
//! The two together say what the grammar is, without a word on how an input
//! is read.

use vstd::prelude::*;
use crate::ast::Op;
use crate::error::{Expected, SyntaxErrorView};
use crate::grammar::{
    additive_op, digit_run, holds_at, is_digit, is_number, lemma_parse_exponents, lemma_parse_expr,
    lemma_parse_factor, lemma_parse_factors, lemma_parse_power_term, lemma_parse_primary,
    lemma_parse_term, lemma_parse_terms, multiplicative_op, next_byte, no_digit_at, op_byte,
    parse_exponents, parse_expr, parse_factor, parse_factors, parse_power_term, parse_primary,
    parse_term, parse_terms, power_follows, product_follows, remaining, skip_space, sum_follows,
    CARET, CLOSE, MINUS, OPEN,
};
use crate::roundtrip::{lemma_digit_run_exact, lemma_holds_at};
use crate::shape::{
    lemma_digit_run_bound, lemma_expr_within, lemma_factor_within, lemma_primary_within,
    lemma_space_run_bound, lemma_term_within,
};
use crate::tree::PairView;

verus! {

/// The place where the tokens of `tree` end, where they stand in `s` from
/// `pos` on, each after any whitespace; `None` where they do not.
pub open spec fn layout_end(tree: PairView, s: Seq<u8>, pos: nat) -> Option<nat>
    decreases tree,
{
    let p = skip_space(s, pos);
    match tree {
        PairView::Int(digits) => if holds_at(s, p, digits) && no_digit_at(s, p + digits.len()) {
            Some(p + digits.len())
        } else {
            None
        },
        PairView::Primary(inner) => if *inner is Int {
            layout_end(*inner, s, pos)
        } else if p < s.len() && s[p as int] == OPEN {
            match layout_end(*inner, s, p + 1) {
                Some(e) => {
                    let q = skip_space(s, e);
                    if q < s.len() && s[q as int] == CLOSE {
                        Some(q + 1)
                    } else {
                        None
                    }
                },
                None => None,
            }
        } else {
            None
        },
        PairView::Factor { negated, operand } => if !negated {
            layout_end(*operand, s, pos)
        } else if p < s.len() && s[p as int] == MINUS {
            layout_end(*operand, s, p + 1)
        } else {
            None
        },
        PairView::PowerTerm { base, exponents } => match layout_end(*base, s, pos) {
            Some(e) => exponents_end(exponents, 0, s, e),
            None => None,
        },
        PairView::Term { first, rest } => match layout_end(*first, s, pos) {
            Some(e) => chain_end(rest, 0, s, e),
            None => None,
        },
        PairView::Expr { first, rest } => match layout_end(*first, s, pos) {
            Some(e) => chain_end(rest, 0, s, e),
            None => None,
        },
    }
}

/// The place where the exponents from the one at `from` on end, where they
/// stand in `s` from `pos` on, a `^` before each.
pub open spec fn exponents_end(exponents: Seq<PairView>, from: nat, s: Seq<u8>, pos: nat) -> Option<nat>
    decreases exponents, exponents.len() - from,
{
    let p = skip_space(s, pos);
    if from >= exponents.len() {
        Some(pos)
    } else if p < s.len() && s[p as int] == CARET {
        match layout_end(exponents[from as int], s, p + 1) {
            Some(e) => exponents_end(exponents, from + 1, s, e),
            None => None,
        }
    } else {
        None
    }
}

/// The place where the operands from the one at `from` on end, where they
/// stand in `s` from `pos` on, its operator before each.
pub open spec fn chain_end(chain: Seq<(Op, PairView)>, from: nat, s: Seq<u8>, pos: nat) -> Option<nat>
    decreases chain, chain.len() - from,
{
    let p = skip_space(s, pos);
    if from >= chain.len() {
        Some(pos)
    } else if p < s.len() && s[p as int] == op_byte(chain[from as int].0) {
        match layout_end(chain[from as int].1, s, p + 1) {
            Some(e) => chain_end(chain, from + 1, s, e),
            None => None,
        }
    } else {
        None
    }
}

/// Whether `tree` is laid out in the whole of `s`: its tokens stand in `s`
/// and only whitespace follows them.
pub open spec fn laid_out(tree: PairView, s: Seq<u8>) -> bool {
    layout_end(tree, s, 0) matches Some(e) && skip_space(s, e) >= s.len()
}

/// A run of digits ends before a byte that is no digit.
pub proof fn lemma_digit_run_stops(s: Seq<u8>, pos: nat)
    ensures
        no_digit_at(s, pos + digit_run(s, pos)),
    decreases remaining(s, pos),
{
    if pos < s.len() && is_digit(s[pos as int]) {
        lemma_digit_run_stops(s, pos + 1);
    }
}

/// The exponents after the first end where the sequence ends from the second on.
pub proof fn lemma_exponents_end_shift(
    first: PairView,
    more: Seq<PairView>,
    from: nat,
    s: Seq<u8>,
    pos: nat,
)
    ensures
        exponents_end(seq![first] + more, from + 1, s, pos) == exponents_end(more, from, s, pos),
    decreases more.len() - from,
{
    let all = seq![first] + more;
    if from < more.len() {
        assert(all[(from + 1) as int] == more[from as int]);
        let p = skip_space(s, pos);
        if p < s.len() && s[p as int] == CARET {
            if let Some(e) = layout_end(more[from as int], s, p + 1) {
                lemma_exponents_end_shift(first, more, from + 1, s, e);
            }
        }
    }
}

/// The operands after the first end where the chain ends from the second on.
pub proof fn lemma_chain_end_shift(
    first: (Op, PairView),
    more: Seq<(Op, PairView)>,
    from: nat,
    s: Seq<u8>,
    pos: nat,
)
    ensures
        chain_end(seq![first] + more, from + 1, s, pos) == chain_end(more, from, s, pos),
    decreases more.len() - from,
{
    let all = seq![first] + more;
    if from < more.len() {
        assert(all[(from + 1) as int] == more[from as int]);
        let p = skip_space(s, pos);
        if p < s.len() && s[p as int] == op_byte(more[from as int].0) {
            if let Some(e) = layout_end(more[from as int].1, s, p + 1) {
                lemma_chain_end_shift(first, more, from + 1, s, e);
            }
        }
    }
}

/// What `primary` read is laid out where it was read.
pub proof fn lemma_primary_laid_out(s: Seq<u8>, pos: nat, lead: Expected)
    requires
        pos <= s.len(),
    ensures
        parse_primary(s, pos, lead) matches Ok((tree, n)) ==> layout_end(tree, s, pos) == Some(
            pos + n,
        ),
    decreases remaining(s, pos), 0nat,
{
    lemma_parse_primary(s, pos, lead);
    lemma_space_run_bound(s, pos);
    let p = skip_space(s, pos);
    if p < s.len() && is_digit(s[p as int]) {
        lemma_digit_run_bound(s, p);
        lemma_digit_run_stops(s, p);
        let end = p + digit_run(s, p);
        let digits = s.subrange(p as int, end as int);
        let number = PairView::Int(digits);
        assert(holds_at(s, p, digits));
        assert(layout_end(number, s, pos) == Some(end));
    } else if p < s.len() && s[p as int] == OPEN {
        lemma_expr_laid_out(s, p + 1);
        lemma_expr_within(s, p + 1);
    }
}

/// What the repeated part of `power_term` read is laid out where it was read.
pub proof fn lemma_exponents_laid_out(s: Seq<u8>, pos: nat)
    requires
        pos <= s.len(),
    ensures
        parse_exponents(s, pos) matches Ok((exponents, m)) ==> exponents_end(
            exponents,
            0,
            s,
            pos,
        ) == Some(pos + m),
    decreases remaining(s, pos), 1nat,
{
    lemma_parse_exponents(s, pos);
    lemma_space_run_bound(s, pos);
    let p = skip_space(s, pos);
    if p < s.len() && s[p as int] == CARET {
        lemma_factor_laid_out(s, p + 1);
        lemma_factor_within(s, p + 1);
        if let Ok((exponent, n)) = parse_factor(s, p + 1) {
            lemma_exponents_laid_out(s, p + 1 + n);
            if let Ok((more, m)) = parse_exponents(s, p + 1 + n) {
                let all = seq![exponent] + more;
                assert(all[0] == exponent);
                lemma_exponents_end_shift(exponent, more, 0, s, p + 1 + n);
            }
        }
    }
}

/// What `power_term` read is laid out where it was read.
pub proof fn lemma_power_term_laid_out(s: Seq<u8>, pos: nat, lead: Expected)
    requires
        pos <= s.len(),
    ensures
        parse_power_term(s, pos, lead) matches Ok((tree, n)) ==> layout_end(tree, s, pos) == Some(
            pos + n,
        ),
    decreases remaining(s, pos), 2nat,
{
    lemma_parse_power_term(s, pos, lead);
    lemma_primary_laid_out(s, pos, lead);
    lemma_primary_within(s, pos, lead);
    if let Ok((base, n)) = parse_primary(s, pos, lead) {
        lemma_exponents_laid_out(s, pos + n);
    }
}

/// What `factor` read is laid out where it was read.
pub proof fn lemma_factor_laid_out(s: Seq<u8>, pos: nat)
    requires
        pos <= s.len(),
    ensures
        parse_factor(s, pos) matches Ok((tree, n)) ==> layout_end(tree, s, pos) == Some(pos + n),
    decreases remaining(s, pos), 3nat,
{
    lemma_parse_factor(s, pos);
    lemma_space_run_bound(s, pos);
    let p = skip_space(s, pos);
    if p < s.len() && s[p as int] == MINUS {
        lemma_power_term_laid_out(s, p + 1, Expected::Primary);
    } else {
        lemma_power_term_laid_out(s, pos, Expected::Operand);
    }
}

/// What the repeated part of `term` read is laid out where it was read.
pub proof fn lemma_factors_laid_out(s: Seq<u8>, pos: nat)
    requires
        pos <= s.len(),
    ensures
        parse_factors(s, pos) matches Ok((rest, m)) ==> chain_end(rest, 0, s, pos) == Some(
            pos + m,
        ),
    decreases remaining(s, pos), 4nat,
{
    lemma_parse_factors(s, pos);
    lemma_space_run_bound(s, pos);
    let p = skip_space(s, pos);
    if p < s.len() && multiplicative_op(s[p as int]) is Some {
        lemma_factor_laid_out(s, p + 1);
        lemma_factor_within(s, p + 1);
        if let Ok((operand, n)) = parse_factor(s, p + 1) {
            lemma_factors_laid_out(s, p + 1 + n);
            if let Ok((more, m)) = parse_factors(s, p + 1 + n) {
                let op = multiplicative_op(s[p as int])->0;
                let all = seq![(op, operand)] + more;
                assert(all[0] == (op, operand));
                lemma_chain_end_shift((op, operand), more, 0, s, p + 1 + n);
            }
        }
    }
}

/// What `term` read is laid out where it was read.
pub proof fn lemma_term_laid_out(s: Seq<u8>, pos: nat)
    requires
        pos <= s.len(),
    ensures
        parse_term(s, pos) matches Ok((tree, n)) ==> layout_end(tree, s, pos) == Some(pos + n),
    decreases remaining(s, pos), 5nat,
{
    lemma_parse_term(s, pos);
    lemma_factor_laid_out(s, pos);
    lemma_factor_within(s, pos);
    if let Ok((first, n)) = parse_factor(s, pos) {
        lemma_factors_laid_out(s, pos + n);
    }
}

/// What the repeated part of `expr` read is laid out where it was read.
pub proof fn lemma_terms_laid_out(s: Seq<u8>, pos: nat)
    requires
        pos <= s.len(),
    ensures
        parse_terms(s, pos) matches Ok((rest, m)) ==> chain_end(rest, 0, s, pos) == Some(pos + m),
    decreases remaining(s, pos), 6nat,
{
    lemma_parse_terms(s, pos);
    lemma_space_run_bound(s, pos);
    let p = skip_space(s, pos);
    if p < s.len() && additive_op(s[p as int]) is Some {
        lemma_term_laid_out(s, p + 1);
        lemma_term_within(s, p + 1);
        if let Ok((operand, n)) = parse_term(s, p + 1) {
            lemma_terms_laid_out(s, p + 1 + n);
            if let Ok((more, m)) = parse_terms(s, p + 1 + n) {
                let op = additive_op(s[p as int])->0;
                let all = seq![(op, operand)] + more;
                assert(all[0] == (op, operand));
                lemma_chain_end_shift((op, operand), more, 0, s, p + 1 + n);
            }
        }
    }
}

/// What `expr` read is laid out where it was read.
pub proof fn lemma_expr_laid_out(s: Seq<u8>, pos: nat)
    requires
        pos <= s.len(),
    ensures
        parse_expr(s, pos) matches Ok((tree, n)) ==> layout_end(tree, s, pos) == Some(pos + n),
    decreases remaining(s, pos), 7nat,
{
    lemma_parse_expr(s, pos);
    lemma_term_laid_out(s, pos);
    lemma_term_within(s, pos);
    if let Ok((first, n)) = parse_term(s, pos) {
        lemma_terms_laid_out(s, pos + n);
    }
}

/// A primary that is laid out starts with a digit or with `(`.
pub proof fn lemma_primary_start(tree: PairView, s: Seq<u8>, pos: nat)
    requires
        tree is Primary,
        tree.conforms(),
        layout_end(tree, s, pos) is Some,
    ensures
        skip_space(s, pos) < s.len(),
        is_digit(s[skip_space(s, pos) as int]) || s[skip_space(s, pos) as int] == OPEN,
{
    let p = skip_space(s, pos);
    let inner = *tree->Primary_0;
    if inner is Int {
        let digits = inner->Int_0;
        assert(inner.conforms());
        assert(is_number(digits));
        assert(layout_end(inner, s, pos) is Some);
        assert(holds_at(s, p, digits));
        lemma_holds_at(s, p, digits, 0);
        assert(is_digit(digits[0]));
    }
}

/// A primary of the grammar that is laid out from `pos` on is what
/// `primary` reads there.
pub proof fn lemma_primary_read(tree: PairView, s: Seq<u8>, pos: nat, lead: Expected)
    requires
        tree is Primary,
        tree.conforms(),
        tree.nests_powers(),
        layout_end(tree, s, pos) is Some,
    ensures
        parse_primary(s, pos, lead) == Ok::<(PairView, nat), SyntaxErrorView>(
            (tree, (layout_end(tree, s, pos)->0 - pos) as nat),
        ),
    decreases tree, 0nat,
{
    let p = skip_space(s, pos);
    let inner = *tree->Primary_0;
    lemma_parse_primary(s, pos, lead);
    lemma_primary_start(tree, s, pos);
    assert(inner.conforms());
    assert(inner.nests_powers());
    if inner is Int {
        let digits = inner->Int_0;
        assert(is_number(digits));
        assert(layout_end(inner, s, pos) == Some(p + digits.len()));
        assert(holds_at(s, p, digits));
        assert forall|i: int| p <= i < p + digits.len() implies is_digit(#[trigger] s[i]) by {
            lemma_holds_at(s, p, digits, i - p);
            assert(is_digit(digits[i - p]));
        }
        lemma_digit_run_exact(s, p, digits.len());
        assert(tree == PairView::Primary(Box::new(PairView::Int(digits))));
    } else {
        assert(inner is Expr);
        assert(s[p as int] == OPEN);
        let e = layout_end(inner, s, p + 1)->0;
        let q = skip_space(s, e);
        assert(q < s.len() && s[q as int] == CLOSE);
        assert(next_byte(s, e) == Some(CLOSE));
        lemma_expr_read(inner, s, p + 1);
        lemma_layout_advances(inner, s, p + 1);
        assert(tree == PairView::Primary(Box::new(inner)));
    }
}

/// The exponents of a power term of the grammar that are laid out from
/// `pos` on, where no `^` follows them, are what the repeated part of
/// `power_term` reads there.
pub proof fn lemma_exponents_read(exponents: Seq<PairView>, from: nat, s: Seq<u8>, pos: nat)
    requires
        exponents.len() <= 1,
        from <= exponents.len(),
        forall|i: int|
            0 <= i < exponents.len() ==> (#[trigger] exponents[i]) is Factor
                && exponents[i].conforms() && exponents[i].nests_powers(),
        exponents_end(exponents, from, s, pos) is Some,
        !power_follows(s, exponents_end(exponents, from, s, pos)->0),
    ensures
        parse_exponents(s, pos) == Ok::<(Seq<PairView>, nat), SyntaxErrorView>(
            (
                exponents.subrange(from as int, exponents.len() as int),
                (exponents_end(exponents, from, s, pos)->0 - pos) as nat,
            ),
        ),
    decreases exponents, exponents.len() - from,
{
    let p = skip_space(s, pos);
    let left = exponents.subrange(from as int, exponents.len() as int);
    lemma_parse_exponents(s, pos);
    if from >= exponents.len() {
        assert(left =~= Seq::<PairView>::empty());
    } else {
        let exponent = exponents[from as int];
        let e = layout_end(exponent, s, p + 1)->0;
        assert(p < s.len() && s[p as int] == CARET);
        assert(layout_end(exponent, s, p + 1) is Some);
        assert(exponents_end(exponents, from + 1, s, e) == Some(e));
        lemma_layout_advances(exponent, s, p + 1);
        lemma_factor_read(exponent, s, p + 1);
        lemma_exponents_read(exponents, from + 1, s, e);
        assert(left =~= seq![exponent] + exponents.subrange((from + 1) as int, exponents.len() as int));
    }
}

/// A power term of the grammar that is laid out from `pos` on, where no `^`
/// follows it, is what `power_term` reads there.
pub proof fn lemma_power_term_read(tree: PairView, s: Seq<u8>, pos: nat, lead: Expected)
    requires
        tree is PowerTerm,
        tree.conforms(),
        tree.nests_powers(),
        layout_end(tree, s, pos) is Some,
        !power_follows(s, layout_end(tree, s, pos)->0),
    ensures
        parse_power_term(s, pos, lead) == Ok::<(PairView, nat), SyntaxErrorView>(
            (tree, (layout_end(tree, s, pos)->0 - pos) as nat),
        ),
    decreases tree, 0nat,
{
    let base = *tree->PowerTerm_base;
    let exponents = tree->PowerTerm_exponents;
    let e = layout_end(base, s, pos)->0;
    lemma_parse_power_term(s, pos, lead);
    lemma_primary_read(base, s, pos, lead);
    lemma_exponents_read(exponents, 0, s, e);
    assert(exponents.subrange(0, exponents.len() as int) =~= exponents);
    lemma_layout_advances(base, s, pos);
    lemma_exponents_advance(exponents, 0, s, e);
}

/// A factor of the grammar that is laid out from `pos` on, where no `^`
/// follows it, is what `factor` reads there.
pub proof fn lemma_factor_read(tree: PairView, s: Seq<u8>, pos: nat)
    requires
        tree is Factor,
        tree.conforms(),
        tree.nests_powers(),
        layout_end(tree, s, pos) is Some,
        !power_follows(s, layout_end(tree, s, pos)->0),
    ensures
        parse_factor(s, pos) == Ok::<(PairView, nat), SyntaxErrorView>(
            (tree, (layout_end(tree, s, pos)->0 - pos) as nat),
        ),
    decreases tree, 0nat,
{
    let p = skip_space(s, pos);
    let operand = *tree->Factor_operand;
    lemma_parse_factor(s, pos);
    assert(operand is PowerTerm && operand.conforms() && operand.nests_powers());
    if tree->Factor_negated {
        assert(p < s.len() && s[p as int] == MINUS);
        lemma_power_term_read(operand, s, p + 1, Expected::Primary);
        lemma_layout_advances(operand, s, p + 1);
        assert(tree == PairView::Factor { negated: true, operand: Box::new(operand) });
    } else {
        let base = *operand->PowerTerm_base;
        assert(layout_end(operand, s, pos) is Some);
        assert(layout_end(base, s, pos) is Some);
        lemma_primary_start(base, s, pos);
        lemma_power_term_read(operand, s, pos, Expected::Operand);
        assert(tree == PairView::Factor { negated: false, operand: Box::new(operand) });
    }
}

/// The operands of a term of the grammar that are laid out from `pos` on,
/// where none of `*`, `/` and `^` follows them, are what the repeated part
/// of `term` reads there.
pub proof fn lemma_factors_read(rest: Seq<(Op, PairView)>, from: nat, s: Seq<u8>, pos: nat)
    requires
        from <= rest.len(),
        forall|i: int|
            0 <= i < rest.len() ==> {
                &&& (#[trigger] rest[i]).0 is Multiply || rest[i].0 is Divide
                &&& rest[i].1 is Factor
                &&& rest[i].1.conforms()
                &&& rest[i].1.nests_powers()
            },
        chain_end(rest, from, s, pos) is Some,
        !power_follows(s, chain_end(rest, from, s, pos)->0),
        !product_follows(s, chain_end(rest, from, s, pos)->0),
    ensures
        parse_factors(s, pos) == Ok::<(Seq<(Op, PairView)>, nat), SyntaxErrorView>(
            (
                rest.subrange(from as int, rest.len() as int),
                (chain_end(rest, from, s, pos)->0 - pos) as nat,
            ),
        ),
    decreases rest, rest.len() - from,
{
    let p = skip_space(s, pos);
    let left = rest.subrange(from as int, rest.len() as int);
    lemma_parse_factors(s, pos);
    if from >= rest.len() {
        assert(left =~= Seq::<(Op, PairView)>::empty());
    } else {
        let (op, operand) = rest[from as int];
        let e = layout_end(operand, s, p + 1)->0;
        assert(p < s.len() && s[p as int] == op_byte(op));
        assert(op is Multiply || op is Divide);
        assert(multiplicative_op(s[p as int]) == Some(op));
        assert(chain_end(rest, from + 1, s, e) is Some);
        assert(!power_follows(s, e)) by {
            if from + 1 < rest.len() {
                let next = rest[(from + 1) as int];
                assert(next.0 is Multiply || next.0 is Divide);
            }
        }
        lemma_factor_read(operand, s, p + 1);
        lemma_factors_read(rest, from + 1, s, e);
        lemma_layout_advances(operand, s, p + 1);
        lemma_chain_advances(rest, from + 1, s, e);
        assert(left =~= seq![(op, operand)] + rest.subrange((from + 1) as int, rest.len() as int));
    }
}

/// A term of the grammar that is laid out from `pos` on, where none of `*`,
/// `/` and `^` follows it, is what `term` reads there.
pub proof fn lemma_term_read(tree: PairView, s: Seq<u8>, pos: nat)
    requires
        tree is Term,
        tree.conforms(),
        tree.nests_powers(),
        layout_end(tree, s, pos) is Some,
        !power_follows(s, layout_end(tree, s, pos)->0),
        !product_follows(s, layout_end(tree, s, pos)->0),
    ensures
        parse_term(s, pos) == Ok::<(PairView, nat), SyntaxErrorView>(
            (tree, (layout_end(tree, s, pos)->0 - pos) as nat),
        ),
    decreases tree, 0nat,
{
    let first = *tree->Term_first;
    let rest = tree->Term_rest;
    let e = layout_end(first, s, pos)->0;
    lemma_parse_term(s, pos);
    assert(!power_follows(s, e)) by {
        if rest.len() > 0 {
            let next = rest[0];
            assert(next.0 is Multiply || next.0 is Divide);
        }
    }
    lemma_factor_read(first, s, pos);
    lemma_factors_read(rest, 0, s, e);
    assert(rest.subrange(0, rest.len() as int) =~= rest);
    lemma_layout_advances(first, s, pos);
    lemma_chain_advances(rest, 0, s, e);
}

/// The operands of an expression of the grammar that are laid out from
/// `pos` on, where no operator follows them, are what the repeated part of
/// `expr` reads there.
pub proof fn lemma_terms_read(rest: Seq<(Op, PairView)>, from: nat, s: Seq<u8>, pos: nat)
    requires
        from <= rest.len(),
        forall|i: int|
            0 <= i < rest.len() ==> {
                &&& (#[trigger] rest[i]).0 is Add || rest[i].0 is Subtract
                &&& rest[i].1 is Term
                &&& rest[i].1.conforms()
                &&& rest[i].1.nests_powers()
            },
        chain_end(rest, from, s, pos) is Some,
        !power_follows(s, chain_end(rest, from, s, pos)->0),
        !product_follows(s, chain_end(rest, from, s, pos)->0),
        !sum_follows(s, chain_end(rest, from, s, pos)->0),
    ensures
        parse_terms(s, pos) == Ok::<(Seq<(Op, PairView)>, nat), SyntaxErrorView>(
            (
                rest.subrange(from as int, rest.len() as int),
                (chain_end(rest, from, s, pos)->0 - pos) as nat,
            ),
        ),
    decreases rest, rest.len() - from,
{
    let p = skip_space(s, pos);
    let left = rest.subrange(from as int, rest.len() as int);
    lemma_parse_terms(s, pos);
    if from >= rest.len() {
        assert(left =~= Seq::<(Op, PairView)>::empty());
    } else {
        let (op, operand) = rest[from as int];
        let e = layout_end(operand, s, p + 1)->0;
        assert(p < s.len() && s[p as int] == op_byte(op));
        assert(op is Add || op is Subtract);
        assert(additive_op(s[p as int]) == Some(op));
        assert(chain_end(rest, from + 1, s, e) is Some);
        assert(!power_follows(s, e) && !product_follows(s, e)) by {
            if from + 1 < rest.len() {
                let next = rest[(from + 1) as int];
                assert(next.0 is Add || next.0 is Subtract);
            }
        }
        lemma_term_read(operand, s, p + 1);
        lemma_terms_read(rest, from + 1, s, e);
        lemma_layout_advances(operand, s, p + 1);
        lemma_chain_advances(rest, from + 1, s, e);
        assert(left =~= seq![(op, operand)] + rest.subrange((from + 1) as int, rest.len() as int));
    }
}

/// An expression of the grammar that is laid out from `pos` on, where no
/// operator follows it, is what `expr` reads there.
pub proof fn lemma_expr_read(tree: PairView, s: Seq<u8>, pos: nat)
    requires
        tree is Expr,
        tree.conforms(),
        tree.nests_powers(),
        layout_end(tree, s, pos) is Some,
        !power_follows(s, layout_end(tree, s, pos)->0),
        !product_follows(s, layout_end(tree, s, pos)->0),
        !sum_follows(s, layout_end(tree, s, pos)->0),
    ensures
        parse_expr(s, pos) == Ok::<(PairView, nat), SyntaxErrorView>(
            (tree, (layout_end(tree, s, pos)->0 - pos) as nat),
        ),
    decreases tree, 0nat,
{
    let first = *tree->Expr_first;
    let rest = tree->Expr_rest;
    let e = layout_end(first, s, pos)->0;
    lemma_parse_expr(s, pos);
    assert(!power_follows(s, e) && !product_follows(s, e)) by {
        if rest.len() > 0 {
            let next = rest[0];
            assert(next.0 is Add || next.0 is Subtract);
        }
    }
    lemma_term_read(first, s, pos);
    lemma_terms_read(rest, 0, s, e);
    assert(rest.subrange(0, rest.len() as int) =~= rest);
    lemma_layout_advances(first, s, pos);
    lemma_chain_advances(rest, 0, s, e);
}

/// The tokens of a tree end at or after the place where they start.
pub proof fn lemma_layout_advances(tree: PairView, s: Seq<u8>, pos: nat)
    ensures
        layout_end(tree, s, pos) matches Some(e) ==> pos <= e,
    decreases tree,
{
    let p = skip_space(s, pos);
    match tree {
        PairView::Int(_) => {},
        PairView::Primary(inner) => {
            if *inner is Int {
                lemma_layout_advances(*inner, s, pos);
            } else {
                lemma_layout_advances(*inner, s, p + 1);
            }
        },
        PairView::Factor { negated, operand } => {
            if negated {
                lemma_layout_advances(*operand, s, p + 1);
            } else {
                lemma_layout_advances(*operand, s, pos);
            }
        },
        PairView::PowerTerm { base, exponents } => {
            lemma_layout_advances(*base, s, pos);
            if let Some(e) = layout_end(*base, s, pos) {
                lemma_exponents_advance(exponents, 0, s, e);
            }
        },
        PairView::Term { first, rest } => {
            lemma_layout_advances(*first, s, pos);
            if let Some(e) = layout_end(*first, s, pos) {
                lemma_chain_advances(rest, 0, s, e);
            }
        },
        PairView::Expr { first, rest } => {
            lemma_layout_advances(*first, s, pos);
            if let Some(e) = layout_end(*first, s, pos) {
                lemma_chain_advances(rest, 0, s, e);
            }
        },
    }
}

/// The exponents end at or after the place where they start.
pub proof fn lemma_exponents_advance(exponents: Seq<PairView>, from: nat, s: Seq<u8>, pos: nat)
    ensures
        exponents_end(exponents, from, s, pos) matches Some(e) ==> pos <= e,
    decreases exponents, exponents.len() - from,
{
    let p = skip_space(s, pos);
    if from < exponents.len() && p < s.len() && s[p as int] == CARET {
        lemma_layout_advances(exponents[from as int], s, p + 1);
        if let Some(e) = layout_end(exponents[from as int], s, p + 1) {
            lemma_exponents_advance(exponents, from + 1, s, e);
        }
    }
}

/// The operands of a chain end at or after the place where they start.
pub proof fn lemma_chain_advances(chain: Seq<(Op, PairView)>, from: nat, s: Seq<u8>, pos: nat)
    ensures
        chain_end(chain, from, s, pos) matches Some(e) ==> pos <= e,
    decreases chain, chain.len() - from,
{
    let p = skip_space(s, pos);
    if from < chain.len() && p < s.len() && s[p as int] == op_byte(chain[from as int].0) {
        lemma_layout_advances(chain[from as int].1, s, p + 1);
        if let Some(e) = layout_end(chain[from as int].1, s, p + 1) {
            lemma_chain_advances(chain, from + 1, s, e);
        }
    }
}

} // verus!

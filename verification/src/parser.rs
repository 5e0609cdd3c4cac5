//! The parser: it reads an input by the rules of the grammar and gives the
//! parse tree, or the error of the first token that is out of place.

use vstd::prelude::*;
use vstd::slice::{slice_subrange, slice_to_vec};
use vstd::string::StringSliceAdditionalSpecFns;
use crate::ast::Op;
use crate::error::{Expected, Found, SyntaxError, SyntaxErrorView};
use crate::grammar::{
    digit_run, failure, lemma_parse_exponents, lemma_parse_expr, lemma_parse_factor,
    lemma_parse_factors, lemma_parse_power_term, lemma_parse_primary, lemma_parse_term,
    lemma_parse_terms, parse_exponents, parse_expr, parse_factor, parse_factors, parse_input,
    parse_power_term, parse_primary, parse_term, parse_terms, skip_space, space_run, Parsed,
    ParsedChain, ParsedExponents, CARET, CLOSE, MINUS, NEWLINE, NINE, OPEN, PLUS, SLASH, SPACE,
    STAR, TAB, ZERO,
};
use crate::tree::{chain_models, models, Pair, PairView};

verus! {

/// The parser of the calculator's grammar.
pub struct CalculatorParser;

/// Whether what the parser returned for a rule started at `pos` is what the
/// grammar gives there.
pub open spec fn agrees(
    r: Result<(Pair, usize), SyntaxError>,
    pos: usize,
    len: usize,
    parsed: Parsed,
) -> bool {
    match r {
        Ok((tree, end)) => pos <= end <= len && parsed == Ok::<(PairView, nat), SyntaxErrorView>(
            (tree@, (end - pos) as nat),
        ),
        Err(e) => parsed == Err::<(PairView, nat), SyntaxErrorView>(e@),
    }
}

/// The result of a repeated part, with the operands `done` that were read
/// over `taken` bytes put before it.
pub open spec fn chain_after(done: Seq<(Op, PairView)>, taken: nat, rest: ParsedChain) -> ParsedChain {
    match rest {
        Ok((more, m)) => Ok((done + more, taken + m)),
        Err(e) => Err(e),
    }
}

/// The result of the repeated part of `power_term`, with the exponents `done`
/// that were read over `taken` bytes put before it.
pub open spec fn exponents_after(
    done: Seq<PairView>,
    taken: nat,
    rest: ParsedExponents,
) -> ParsedExponents {
    match rest {
        Ok((more, m)) => Ok((done + more, taken + m)),
        Err(e) => Err(e),
    }
}

/// The place of the first byte from `pos` on that is no whitespace.
pub fn skip_spaces(input: &[u8], pos: usize) -> (p: usize)
    ensures
        p == skip_space(input@, pos as nat),
        pos <= p,
        pos <= input.len() ==> p <= input.len(),
{
    let mut p = pos;
    while p < input.len() && (input[p] == SPACE || input[p] == TAB || input[p] == NEWLINE)
        invariant
            pos <= p,
            pos <= input.len() ==> p <= input.len(),
            skip_space(input@, pos as nat) == p + space_run(input@, p as nat),
        decreases input.len() - p,
    {
        p = p + 1;
    }
    p
}

/// The place of the first byte from `pos` on that is no digit.
pub fn skip_digits(input: &[u8], pos: usize) -> (p: usize)
    ensures
        p == pos + digit_run(input@, pos as nat),
        pos <= p,
        pos <= input.len() ==> p <= input.len(),
{
    let mut p = pos;
    while p < input.len() && ZERO <= input[p] && input[p] <= NINE
        invariant
            pos <= p,
            pos <= input.len() ==> p <= input.len(),
            pos + digit_run(input@, pos as nat) == p + digit_run(input@, p as nat),
        decreases input.len() - p,
    {
        p = p + 1;
    }
    p
}

/// The error of the token at `pos`, which is none of those `expected` there.
pub fn unexpected(input: &[u8], pos: usize, expected: Expected) -> (e: SyntaxError)
    ensures
        e@ == failure(input@, pos as nat, expected),
{
    let found = if pos >= input.len() {
        Found::EndOfInput
    } else {
        let b = input[pos];
        if ZERO <= b && b <= NINE {
            Found::Number
        } else if b == PLUS {
            Found::Operator(Op::Add)
        } else if b == MINUS {
            Found::Operator(Op::Subtract)
        } else if b == STAR {
            Found::Operator(Op::Multiply)
        } else if b == SLASH {
            Found::Operator(Op::Divide)
        } else if b == CARET {
            Found::Operator(Op::Power)
        } else if b == OPEN {
            Found::OpenParen
        } else if b == CLOSE {
            Found::CloseParen
        } else {
            Found::Other
        }
    };
    SyntaxError { position: pos, expected, found }
}

/// Reads a `primary` from `pos` on.
pub fn read_primary(input: &[u8], pos: usize, lead: Expected) -> (r: Result<(Pair, usize), SyntaxError>)
    ensures
        agrees(r, pos, input.len(), parse_primary(input@, pos as nat, lead)),
    decreases input.len() - pos, 0nat,
{
    proof {
        lemma_parse_primary(input@, pos as nat, lead);
    }
    let p = skip_spaces(input, pos);
    if p < input.len() && ZERO <= input[p] && input[p] <= NINE {
        let end = skip_digits(input, p);
        let digits = slice_to_vec(slice_subrange(input, p, end));
        assert(Pair::Int(digits)@ == PairView::Int(digits@));
        Ok((Pair::Primary(Box::new(Pair::Int(digits))), end))
    } else if p < input.len() && input[p] == OPEN {
        let (inner, end) = match read_expr(input, p + 1) {
            Ok(read) => read,
            Err(e) => {
                return Err(e);
            },
        };
        let q = skip_spaces(input, end);
        if q < input.len() && input[q] == CLOSE {
            Ok((Pair::Primary(Box::new(inner)), q + 1))
        } else {
            Err(unexpected(input, q, Expected::OperatorOrClose))
        }
    } else {
        Err(unexpected(input, p, lead))
    }
}

/// Reads a `power_term` from `pos` on.
pub fn read_power_term(input: &[u8], pos: usize, lead: Expected) -> (r: Result<
    (Pair, usize),
    SyntaxError,
>)
    ensures
        agrees(r, pos, input.len(), parse_power_term(input@, pos as nat, lead)),
    decreases input.len() - pos, 2nat,
{
    proof {
        lemma_parse_power_term(input@, pos as nat, lead);
    }
    let (base, start) = match read_primary(input, pos, lead) {
        Ok(read) => read,
        Err(e) => {
            return Err(e);
        },
    };
    let mut exponents: Vec<Pair> = Vec::new();
    let mut end = start;
    proof {
        assert(models(exponents@) + parse_exponents(input@, end as nat)->Ok_0.0
            =~= parse_exponents(input@, end as nat)->Ok_0.0);
    }
    loop
        invariant
            pos <= start <= end,
            start <= input.len() ==> end <= input.len(),
            parse_primary(input@, pos as nat, lead) == Ok::<(PairView, nat), SyntaxErrorView>(
                (base@, (start - pos) as nat),
            ),
            parse_exponents(input@, start as nat) == exponents_after(
                models(exponents@),
                (end - start) as nat,
                parse_exponents(input@, end as nat),
            ),
        ensures
            parse_exponents(input@, start as nat) == Ok::<(Seq<PairView>, nat), SyntaxErrorView>(
                (models(exponents@), (end - start) as nat),
            ),
        decreases input.len() - end,
    {
        proof {
            lemma_parse_power_term(input@, pos as nat, lead);
            lemma_parse_exponents(input@, end as nat);
        }
        let p = skip_spaces(input, end);
        if p < input.len() && input[p] == CARET {
            match read_factor(input, p + 1) {
                Ok((exponent, next)) => {
                    proof {
                        let after = parse_exponents(input@, next as nat);
                        if after is Ok {
                            assert(models(exponents@.push(exponent)) + after->Ok_0.0 =~= models(
                                exponents@,
                            ) + (seq![exponent@] + after->Ok_0.0));
                        }
                    }
                    exponents.push(exponent);
                    end = next;
                },
                Err(e) => {
                    return Err(e);
                },
            }
        } else {
            proof {
                assert(models(exponents@) + Seq::<PairView>::empty() =~= models(exponents@));
            }
            break ;
        }
    }
    Ok((Pair::PowerTerm { base: Box::new(base), exponents }, end))
}

/// Reads a `factor` from `pos` on.
pub fn read_factor(input: &[u8], pos: usize) -> (r: Result<(Pair, usize), SyntaxError>)
    ensures
        agrees(r, pos, input.len(), parse_factor(input@, pos as nat)),
    decreases input.len() - pos, 3nat,
{
    proof {
        lemma_parse_factor(input@, pos as nat);
    }
    let p = skip_spaces(input, pos);
    if p < input.len() && input[p] == MINUS {
        match read_power_term(input, p + 1, Expected::Primary) {
            Ok((operand, end)) => Ok((Pair::Factor { negated: true, operand: Box::new(operand) }, end)),
            Err(e) => Err(e),
        }
    } else {
        match read_power_term(input, pos, Expected::Operand) {
            Ok((operand, end)) => Ok((Pair::Factor { negated: false, operand: Box::new(operand) }, end)),
            Err(e) => Err(e),
        }
    }
}

/// Reads a `term` from `pos` on.
pub fn read_term(input: &[u8], pos: usize) -> (r: Result<(Pair, usize), SyntaxError>)
    ensures
        agrees(r, pos, input.len(), parse_term(input@, pos as nat)),
    decreases input.len() - pos, 5nat,
{
    proof {
        lemma_parse_term(input@, pos as nat);
    }
    let (first, start) = match read_factor(input, pos) {
        Ok(read) => read,
        Err(e) => {
            return Err(e);
        },
    };
    let mut rest: Vec<(Op, Pair)> = Vec::new();
    let mut end = start;
    proof {
        assert(chain_models(rest@) + parse_factors(input@, end as nat)->Ok_0.0
            =~= parse_factors(input@, end as nat)->Ok_0.0);
    }
    loop
        invariant
            pos <= start <= end,
            start <= input.len() ==> end <= input.len(),
            parse_factor(input@, pos as nat) == Ok::<(PairView, nat), SyntaxErrorView>(
                (first@, (start - pos) as nat),
            ),
            parse_factors(input@, start as nat) == chain_after(
                chain_models(rest@),
                (end - start) as nat,
                parse_factors(input@, end as nat),
            ),
        ensures
            parse_factors(input@, start as nat) == Ok::<(Seq<(Op, PairView)>, nat), SyntaxErrorView>(
                (chain_models(rest@), (end - start) as nat),
            ),
        decreases input.len() - end,
    {
        proof {
            lemma_parse_term(input@, pos as nat);
            lemma_parse_factors(input@, end as nat);
        }
        let p = skip_spaces(input, end);
        if p < input.len() && (input[p] == STAR || input[p] == SLASH) {
            let op = if input[p] == STAR {
                Op::Multiply
            } else {
                Op::Divide
            };
            match read_factor(input, p + 1) {
                Ok((operand, next)) => {
                    proof {
                        let after = parse_factors(input@, next as nat);
                        if after is Ok {
                            assert(chain_models(rest@.push((op, operand))) + after->Ok_0.0
                                =~= chain_models(rest@) + (seq![(op, operand@)] + after->Ok_0.0));
                        }
                    }
                    rest.push((op, operand));
                    end = next;
                },
                Err(e) => {
                    return Err(e);
                },
            }
        } else {
            proof {
                assert(chain_models(rest@) + Seq::<(Op, PairView)>::empty() =~= chain_models(rest@));
            }
            break ;
        }
    }
    Ok((Pair::Term { first: Box::new(first), rest }, end))
}

/// Reads an `expr` from `pos` on.
pub fn read_expr(input: &[u8], pos: usize) -> (r: Result<(Pair, usize), SyntaxError>)
    ensures
        agrees(r, pos, input.len(), parse_expr(input@, pos as nat)),
    decreases input.len() - pos, 7nat,
{
    proof {
        lemma_parse_expr(input@, pos as nat);
    }
    let (first, start) = match read_term(input, pos) {
        Ok(read) => read,
        Err(e) => {
            return Err(e);
        },
    };
    let mut rest: Vec<(Op, Pair)> = Vec::new();
    let mut end = start;
    proof {
        assert(chain_models(rest@) + parse_terms(input@, end as nat)->Ok_0.0
            =~= parse_terms(input@, end as nat)->Ok_0.0);
    }
    loop
        invariant
            pos <= start <= end,
            start <= input.len() ==> end <= input.len(),
            parse_term(input@, pos as nat) == Ok::<(PairView, nat), SyntaxErrorView>(
                (first@, (start - pos) as nat),
            ),
            parse_terms(input@, start as nat) == chain_after(
                chain_models(rest@),
                (end - start) as nat,
                parse_terms(input@, end as nat),
            ),
        ensures
            parse_terms(input@, start as nat) == Ok::<(Seq<(Op, PairView)>, nat), SyntaxErrorView>(
                (chain_models(rest@), (end - start) as nat),
            ),
        decreases input.len() - end,
    {
        proof {
            lemma_parse_expr(input@, pos as nat);
            lemma_parse_terms(input@, end as nat);
        }
        let p = skip_spaces(input, end);
        if p < input.len() && (input[p] == PLUS || input[p] == MINUS) {
            let op = if input[p] == PLUS {
                Op::Add
            } else {
                Op::Subtract
            };
            match read_term(input, p + 1) {
                Ok((operand, next)) => {
                    proof {
                        let after = parse_terms(input@, next as nat);
                        if after is Ok {
                            assert(chain_models(rest@.push((op, operand))) + after->Ok_0.0
                                =~= chain_models(rest@) + (seq![(op, operand@)] + after->Ok_0.0));
                        }
                    }
                    rest.push((op, operand));
                    end = next;
                },
                Err(e) => {
                    return Err(e);
                },
            }
        } else {
            proof {
                assert(chain_models(rest@) + Seq::<(Op, PairView)>::empty() =~= chain_models(rest@));
            }
            break ;
        }
    }
    Ok((Pair::Expr { first: Box::new(first), rest }, end))
}

impl CalculatorParser {
    /// Reads `input` as one expression that covers it whole. The tree is the
    /// one that the grammar gives for the bytes of `input`, and so is the
    /// error where there is none.
    pub fn parse(input: &str) -> (r: Result<Pair, SyntaxError>)
        ensures
            match r {
                Ok(tree) => parse_input(input.spec_bytes()) == Ok::<PairView, SyntaxErrorView>(tree@),
                Err(e) => parse_input(input.spec_bytes()) == Err::<PairView, SyntaxErrorView>(e@),
            },
    {
        let bytes = input.as_bytes();
        let (tree, end) = match read_expr(bytes, 0) {
            Ok(read) => read,
            Err(e) => {
                return Err(e);
            },
        };
        let q = skip_spaces(bytes, end);
        if q >= bytes.len() {
            Ok(tree)
        } else {
            Err(unexpected(bytes, q, Expected::OperatorOrEnd))
        }
    }
}

} // verus!

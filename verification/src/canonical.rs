//! The canonical text of an expression: numbers in decimal notation, one
//! space on each side of a binary operator, and parentheses around every
//! operand that is not a number.
//!
//! `-5 * (1 + 2) ^ 2 - 3` is read as the expression whose canonical text is
//! `((-5) * ((1 + 2) ^ 2)) - 3`.

use vstd::prelude::*;
use vstd::string::StringExecFns;
use vstd::utf8::{encode_utf8, is_ascii_chars, is_ascii_chars_encode_utf8};
use crate::ast::{ExprAst, Op};
use crate::grammar::{op_byte, CLOSE, MINUS, OPEN, SPACE, ZERO};
use crate::text::{append_decimal, decimal_text, digit_char};

verus! {

/// The decimal notation of `n` in ASCII digits, without leading zeros.
pub open spec fn decimal_bytes(n: nat) -> Seq<u8>
    decreases n,
{
    if n < 10 {
        seq![(ZERO + n) as u8]
    } else {
        decimal_bytes(n / 10).push((ZERO + n % 10) as u8)
    }
}

/// The canonical text of an expression.
pub open spec fn canonical_bytes(ast: ExprAst) -> Seq<u8>
    decreases ast, 0nat,
{
    match ast {
        ExprAst::Int(v) => if v >= 0 {
            decimal_bytes(v as nat)
        } else {
            seq![MINUS] + decimal_bytes((-v) as nat)
        },
        ExprAst::UnaryOp { op, child } => seq![op_byte(op)] + operand_bytes(*child),
        ExprAst::BinaryOp { op, lhs, rhs } => operand_bytes(*lhs) + seq![SPACE, op_byte(op), SPACE]
            + operand_bytes(*rhs),
    }
}

/// The canonical text of an expression as an operand: a number that is not
/// negative stands as it is, every other expression in parentheses.
pub open spec fn operand_bytes(ast: ExprAst) -> Seq<u8>
    decreases ast, 1nat,
{
    match ast {
        ExprAst::Int(v) if v >= 0 => canonical_bytes(ast),
        _ => seq![OPEN] + canonical_bytes(ast) + seq![CLOSE],
    }
}

/// ASCII bytes as the text that they encode.
pub open spec fn as_text(bytes: Seq<u8>) -> Seq<char> {
    Seq::new(bytes.len(), |i: int| bytes[i] as char)
}

/// Whether every byte is an ASCII character.
pub open spec fn all_ascii(bytes: Seq<u8>) -> bool {
    forall|i: int| 0 <= i < bytes.len() ==> #[trigger] bytes[i] < 0x80
}

/// The text of ASCII bytes is encoded by those bytes.
pub proof fn lemma_ascii_text(bytes: Seq<u8>)
    requires
        all_ascii(bytes),
    ensures
        encode_utf8(as_text(bytes)) == bytes,
{
    let text = as_text(bytes);
    assert(is_ascii_chars(text)) by {
        assert forall|i: int| 0 <= i < text.len() implies '\0' <= #[trigger] text[i] <= '\u{7f}' by {
            assert(bytes[i] < 0x80);
        }
    }
    is_ascii_chars_encode_utf8(text);
    assert(encode_utf8(text) =~= bytes) by {
        assert forall|i: int| 0 <= i < bytes.len() implies encode_utf8(text)[i] == bytes[i] by {
            assert(text[i] as u8 == encode_utf8(text)[i]);
            assert(bytes[i] < 0x80);
        }
    }
}

/// The decimal notation of a number in bytes is its decimal notation in text.
pub proof fn lemma_decimal_text(n: nat)
    ensures
        as_text(decimal_bytes(n)) == decimal_text(n),
        all_ascii(decimal_bytes(n)),
    decreases n,
{
    if n < 10 {
        assert(as_text(decimal_bytes(n)) =~= decimal_text(n));
    } else {
        lemma_decimal_text(n / 10);
        let head = decimal_bytes(n / 10);
        let w = decimal_bytes(n);
        assert(as_text(w) =~= as_text(head).push(digit_char(n % 10)));
        assert forall|i: int| 0 <= i < w.len() implies #[trigger] w[i] < 0x80 by {
            if i < head.len() {
                assert(w[i] == head[i]);
            }
        }
    }
}

/// The canonical text of an expression is made of ASCII characters.
pub proof fn lemma_canonical_ascii(ast: ExprAst)
    ensures
        all_ascii(canonical_bytes(ast)),
        all_ascii(operand_bytes(ast)),
    decreases ast,
{
    match ast {
        ExprAst::Int(v) => {
            if v >= 0 {
                lemma_decimal_text(v as nat);
            } else {
                lemma_decimal_text((-v) as nat);
            }
        },
        ExprAst::UnaryOp { op, child } => {
            lemma_canonical_ascii(*child);
        },
        ExprAst::BinaryOp { op, lhs, rhs } => {
            lemma_canonical_ascii(*lhs);
            lemma_canonical_ascii(*rhs);
        },
    }
}

/// The text of an operator.
fn op_symbol(op: Op) -> (s: &'static str)
    ensures
        s@ == as_text(seq![op_byte(op)]),
{
    proof {
        reveal_strlit("+");
        reveal_strlit("-");
        reveal_strlit("*");
        reveal_strlit("/");
        reveal_strlit("^");
    }
    let s = match op {
        Op::Add => "+",
        Op::Subtract => "-",
        Op::Multiply => "*",
        Op::Divide => "/",
        Op::Power => "^",
    };
    assert(s@ =~= as_text(seq![op_byte(op)]));
    s
}

/// Appends the canonical text of `ast` to `out`.
fn append_canonical(ast: &ExprAst, out: &mut String)
    ensures
        final(out)@ == old(out)@ + as_text(canonical_bytes(*ast)),
    decreases ast, 0nat,
{
    proof {
        reveal_strlit("-");
        reveal_strlit(" ");
    }
    match ast {
        ExprAst::Int(v) => {
            if *v >= 0 {
                proof {
                    lemma_decimal_text(*v as nat);
                }
                append_decimal(out, *v as u64);
            } else {
                let magnitude: u64 = (-(*v + 1)) as u64 + 1;
                proof {
                    lemma_decimal_text(magnitude as nat);
                    assert("-"@ =~= as_text(seq![MINUS]));
                    assert(as_text(seq![MINUS] + decimal_bytes(magnitude as nat)) =~= as_text(
                        seq![MINUS],
                    ) + as_text(decimal_bytes(magnitude as nat)));
                }
                out.append("-");
                append_decimal(out, magnitude);
            }
        },
        ExprAst::UnaryOp { op, child } => {
            out.append(op_symbol(*op));
            append_operand(child, out);
            proof {
                assert(as_text(canonical_bytes(*ast)) =~= as_text(seq![op_byte(*op)]) + as_text(
                    operand_bytes(**child),
                ));
            }
        },
        ExprAst::BinaryOp { op, lhs, rhs } => {
            append_operand(lhs, out);
            out.append(" ");
            out.append(op_symbol(*op));
            out.append(" ");
            append_operand(rhs, out);
            proof {
                assert(" "@ =~= as_text(seq![SPACE]));
                assert(as_text(canonical_bytes(*ast)) =~= as_text(operand_bytes(**lhs)) + as_text(
                    seq![SPACE],
                ) + as_text(seq![op_byte(*op)]) + as_text(seq![SPACE]) + as_text(
                    operand_bytes(**rhs),
                ));
            }
        },
    }
}

/// Appends the canonical text of `ast` as an operand to `out`.
fn append_operand(ast: &ExprAst, out: &mut String)
    ensures
        final(out)@ == old(out)@ + as_text(operand_bytes(*ast)),
    decreases ast, 1nat,
{
    let plain = match ast {
        ExprAst::Int(v) => *v >= 0,
        _ => false,
    };
    if plain {
        append_canonical(ast, out);
    } else {
        proof {
            reveal_strlit("(");
            reveal_strlit(")");
            assert("("@ =~= as_text(seq![OPEN]));
            assert(")"@ =~= as_text(seq![CLOSE]));
            assert(as_text(operand_bytes(*ast)) =~= as_text(seq![OPEN]) + as_text(
                canonical_bytes(*ast),
            ) + as_text(seq![CLOSE]));
        }
        out.append("(");
        append_canonical(ast, out);
        out.append(")");
    }
}

impl ExprAst {
    /// The canonical text of the expression. Read as an input, the text of
    /// an expression that an input can write gives that expression again.
    pub fn to_canonical(&self) -> (text: String)
        ensures
            text@ == as_text(canonical_bytes(*self)),
            encode_utf8(text@) == canonical_bytes(*self),
    {
        let mut text = String::new();
        append_canonical(self, &mut text);
        proof {
            lemma_canonical_ascii(*self);
            lemma_ascii_text(canonical_bytes(*self));
            assert(text@ =~= as_text(canonical_bytes(*self)));
        }
        text
    }
}

} // verus!

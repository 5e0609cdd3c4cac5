//! The parse tree: one node per grammar rule that matched.

use vstd::prelude::*;
use crate::ast::Op;
use crate::grammar::{is_number, op_byte, CARET, CLOSE, MINUS, OPEN};

verus! {

/// A node of the parse tree, one variant per grammar rule.
#[derive(Debug, PartialEq)]
pub enum Pair {
    /// `integer`: the digits of a number.
    Int(Vec<u8>),
    /// `primary`: a number, or an expression that stood in parentheses.
    Primary(Box<Pair>),
    /// `factor`: a power term, and whether a `-` stood before it.
    Factor { negated: bool, operand: Box<Pair> },
    /// `power_term`: a base and the exponents that followed it.
    PowerTerm { base: Box<Pair>, exponents: Vec<Pair> },
    /// `term`: a factor and the factors that followed it, each with `*` or
    /// `/` before it.
    Term { first: Box<Pair>, rest: Vec<(Op, Pair)> },
    /// `expr`: a term and the terms that followed it, each with `+` or `-`
    /// before it.
    Expr { first: Box<Pair>, rest: Vec<(Op, Pair)> },
}

/// The mathematical model of a parse tree: the same nodes, with sequences
/// for the children.
pub enum PairView {
    Int(Seq<u8>),
    Primary(Box<PairView>),
    Factor { negated: bool, operand: Box<PairView> },
    PowerTerm { base: Box<PairView>, exponents: Seq<PairView> },
    Term { first: Box<PairView>, rest: Seq<(Op, PairView)> },
    Expr { first: Box<PairView>, rest: Seq<(Op, PairView)> },
}

impl Pair {
    /// The tree as a mathematical value.
    pub open spec fn model(self) -> PairView
        decreases self,
    {
        match self {
            Pair::Int(digits) => PairView::Int(digits@),
            Pair::Primary(inner) => PairView::Primary(Box::new(inner.model())),
            Pair::Factor { negated, operand } => PairView::Factor {
                negated,
                operand: Box::new(operand.model()),
            },
            Pair::PowerTerm { base, exponents } => PairView::PowerTerm {
                base: Box::new(base.model()),
                exponents: models(exponents@),
            },
            Pair::Term { first, rest } => PairView::Term {
                first: Box::new(first.model()),
                rest: chain_models(rest@),
            },
            Pair::Expr { first, rest } => PairView::Expr {
                first: Box::new(first.model()),
                rest: chain_models(rest@),
            },
        }
    }
}

/// The models of a sequence of trees.
pub open spec fn models(trees: Seq<Pair>) -> Seq<PairView>
    decreases trees,
{
    Seq::new(
        trees.len(),
        |i: int|
            if 0 <= i < trees.len() {
                trees[i].model()
            } else {
                arbitrary()
            },
    )
}

/// The models of a sequence of operands, each with the operator before it.
pub open spec fn chain_models(chain: Seq<(Op, Pair)>) -> Seq<(Op, PairView)>
    decreases chain,
{
    Seq::new(
        chain.len(),
        |i: int|
            if 0 <= i < chain.len() {
                (chain[i].0, chain[i].1.model())
            } else {
                arbitrary()
            },
    )
}

impl View for Pair {
    type V = PairView;

    open spec fn view(&self) -> PairView {
        self.model()
    }
}

impl PairView {
    /// Whether the tree has the shape that the grammar gives: each node holds
    /// the kinds of children that its rule names, each chain the operators of
    /// its level, and each number one or more digits.
    pub open spec fn conforms(self) -> bool
        decreases self,
    {
        match self {
            PairView::Int(digits) => is_number(digits),
            PairView::Primary(inner) => (*inner is Int || *inner is Expr) && inner.conforms(),
            PairView::Factor { negated, operand } => *operand is PowerTerm && operand.conforms(),
            PairView::PowerTerm { base, exponents } => {
                &&& *base is Primary
                &&& base.conforms()
                &&& forall|i: int|
                    0 <= i < exponents.len() ==> (#[trigger] exponents[i]) is Factor
                        && exponents[i].conforms()
            },
            PairView::Term { first, rest } => {
                &&& *first is Factor
                &&& first.conforms()
                &&& forall|i: int|
                    0 <= i < rest.len() ==> {
                        &&& (#[trigger] rest[i]).0 is Multiply || rest[i].0 is Divide
                        &&& rest[i].1 is Factor
                        &&& rest[i].1.conforms()
                    }
            },
            PairView::Expr { first, rest } => {
                &&& *first is Term
                &&& first.conforms()
                &&& forall|i: int|
                    0 <= i < rest.len() ==> {
                        &&& (#[trigger] rest[i]).0 is Add || rest[i].0 is Subtract
                        &&& rest[i].1 is Term
                        &&& rest[i].1.conforms()
                    }
            },
        }
    }

    /// Whether every `power_term` node of the tree holds one exponent at
    /// most. The grammar gives such trees only: what follows the first
    /// exponent belongs to that exponent, which is why powers group from the
    /// right.
    pub open spec fn nests_powers(self) -> bool
        decreases self,
    {
        match self {
            PairView::Int(_) => true,
            PairView::Primary(inner) => inner.nests_powers(),
            PairView::Factor { negated, operand } => operand.nests_powers(),
            PairView::PowerTerm { base, exponents } => {
                &&& exponents.len() <= 1
                &&& base.nests_powers()
                &&& forall|i: int|
                    0 <= i < exponents.len() ==> (#[trigger] exponents[i]).nests_powers()
            },
            PairView::Term { first, rest } => {
                &&& first.nests_powers()
                &&& forall|i: int| 0 <= i < rest.len() ==> (#[trigger] rest[i]).1.nests_powers()
            },
            PairView::Expr { first, rest } => {
                &&& first.nests_powers()
                &&& forall|i: int| 0 <= i < rest.len() ==> (#[trigger] rest[i]).1.nests_powers()
            },
        }
    }

    /// The tokens of the tree, side by side in the order of the input: the
    /// text that the tree was read from, without its whitespace.
    pub open spec fn spelling(self) -> Seq<u8>
        decreases self,
    {
        match self {
            PairView::Int(digits) => digits,
            PairView::Primary(inner) => if *inner is Int {
                inner.spelling()
            } else {
                seq![OPEN] + inner.spelling() + seq![CLOSE]
            },
            PairView::Factor { negated, operand } => if negated {
                seq![MINUS] + operand.spelling()
            } else {
                operand.spelling()
            },
            PairView::PowerTerm { base, exponents } => base.spelling() + exponents_spelling(
                exponents,
                0,
            ),
            PairView::Term { first, rest } => first.spelling() + chain_spelling(rest, 0),
            PairView::Expr { first, rest } => first.spelling() + chain_spelling(rest, 0),
        }
    }
}

/// The tokens of the exponents from the one at `from` on, a `^` before each.
pub open spec fn exponents_spelling(exponents: Seq<PairView>, from: nat) -> Seq<u8>
    decreases exponents, exponents.len() - from,
{
    if from >= exponents.len() {
        Seq::empty()
    } else {
        seq![CARET] + exponents[from as int].spelling() + exponents_spelling(exponents, from + 1)
    }
}

/// The tokens of the operands from the one at `from` on, its operator before each.
pub open spec fn chain_spelling(chain: Seq<(Op, PairView)>, from: nat) -> Seq<u8>
    decreases chain, chain.len() - from,
{
    if from >= chain.len() {
        Seq::empty()
    } else {
        seq![op_byte(chain[from as int].0)] + chain[from as int].1.spelling() + chain_spelling(
            chain,
            from + 1,
        )
    }
}

} // verus!

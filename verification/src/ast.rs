//! The abstract syntax tree of an arithmetic expression.

use vstd::prelude::*;

verus! {

/// The operators of the calculator.
#[derive(Debug, Clone, Copy, PartialEq, Eq, Structural)]
pub enum Op {
    Add,
    Subtract,
    Multiply,
    Divide,
    Power,
}

/// The name of an operator.
pub open spec fn op_name(op: Op) -> Seq<char> {
    match op {
        Op::Add => "Add"@,
        Op::Subtract => "Subtract"@,
        Op::Multiply => "Multiply"@,
        Op::Divide => "Divide"@,
        Op::Power => "Power"@,
    }
}

impl Op {
    /// The name of the operator.
    pub fn name(&self) -> (s: &'static str)
        ensures
            s@ == op_name(*self),
    {
        match self {
            Op::Add => "Add",
            Op::Subtract => "Subtract",
            Op::Multiply => "Multiply",
            Op::Divide => "Divide",
            Op::Power => "Power",
        }
    }
}

/// An arithmetic expression. Each node owns its children.
#[derive(Debug, PartialEq)]
pub enum ExprAst {
    /// A number.
    Int(i64),
    /// A unary operation. `Subtract`, the negation, is the one operator
    /// that has a value here.
    UnaryOp { op: Op, child: Box<ExprAst> },
    /// A binary operation.
    BinaryOp { op: Op, lhs: Box<ExprAst>, rhs: Box<ExprAst> },
}

impl Clone for ExprAst {
    fn clone(&self) -> (res: Self)
        ensures
            res == *self,
        decreases self,
    {
        match self {
            ExprAst::Int(i) => ExprAst::Int(*i),
            ExprAst::UnaryOp { op, child } => ExprAst::UnaryOp {
                op: *op,
                child: Box::new((&**child).clone()),
            },
            ExprAst::BinaryOp { op, lhs, rhs } => ExprAst::BinaryOp {
                op: *op,
                lhs: Box::new((&**lhs).clone()),
                rhs: Box::new((&**rhs).clone()),
            },
        }
    }
}

impl ExprAst {
    /// Whether every unary node of the expression holds the one operator
    /// that stands for a unary operation: `Subtract`, the negation.
    pub open spec fn well_formed(self) -> bool
        decreases self,
    {
        match self {
            ExprAst::Int(_) => true,
            ExprAst::UnaryOp { op, child } => op == Op::Subtract && child.well_formed(),
            ExprAst::BinaryOp { op, lhs, rhs } => lhs.well_formed() && rhs.well_formed(),
        }
    }

    /// Whether the expression is one that an input can write: it is well
    /// formed and none of its numbers is negative. (A negative value is
    /// written as the negation of a number.)
    pub open spec fn written(self) -> bool
        decreases self,
    {
        match self {
            ExprAst::Int(v) => v >= 0,
            ExprAst::UnaryOp { op, child } => op == Op::Subtract && child.written(),
            ExprAst::BinaryOp { op, lhs, rhs } => lhs.written() && rhs.written(),
        }
    }
}

} // verus!

use vstd::prelude::*;

verus! {

/// Identity of a node: its position in the graph that holds it.
#[derive(Clone, Copy, Debug, PartialEq, Eq, Structural, Hash)]
pub struct ValueId(pub usize);

impl ValueId {
    /// The identity of the node stored at `index`.
    pub fn new(index: usize) -> (r: ValueId)
        ensures
            r.0 == index,
    {
        ValueId(index)
    }
}

/// Binary operators. `Sub` and `Div` are never recorded in a graph: subtraction
/// and division are built from addition, multiplication and powers.
#[derive(Clone, Copy, Debug, PartialEq, Eq, Structural, Hash)]
pub enum BinaryOp {
    Add,
    Sub,
    Mul,
    Div,
    Pow,
}

/// Unary operators.
#[derive(Clone, Copy, Debug, PartialEq, Eq, Structural, Hash)]
pub enum UnaryOp {
    Tanh,
    Exp,
    Relu,
}

/// Provenance of a node: the operator and the operands it was computed from.
#[derive(Clone, Copy, Debug, PartialEq, Eq, Structural, Hash)]
pub enum Op {
    Binary(ValueId, ValueId, BinaryOp),
    Unary(ValueId, UnaryOp),
}

impl Op {
    pub fn is_binary(&self) -> (r: bool)
        ensures
            r == (self is Binary),
    {
        match self {
            Op::Binary(..) => true,
            Op::Unary(..) => false,
        }
    }
}

/// The operands a provenance refers to, in order; none for a leaf.
pub open spec fn operands(op: Option<Op>) -> Seq<ValueId> {
    match op {
        Some(Op::Binary(l, r, _)) => seq![l, r],
        Some(Op::Unary(x, _)) => seq![x],
        None => seq![],
    }
}

/// The record of one node: how it was derived, a free-form label, and its identity.
#[derive(Clone, Debug)]
pub struct Value_ {
    pub op: Option<Op>,
    pub label: String,
    pub id: ValueId,
}

} // verus!

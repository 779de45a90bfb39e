use vstd::prelude::*;
use crate::node::{operands, BinaryOp, Op, UnaryOp, ValueId, Value_};

verus! {

/// A graph is modelled as the provenance of each node, by position; a node's
/// identity is its position.
pub type Model = Seq<Option<Op>>;

/// The operands of node `n` in `g`.
pub open spec fn operands_of(g: Model, n: ValueId) -> Seq<ValueId> {
    operands(g[n.0 as int])
}

/// A provenance that may be recorded at position `i`: it refers only to earlier
/// nodes, and its operator is a primitive one.
pub open spec fn op_fits(op: Option<Op>, i: nat) -> bool {
    match op {
        Some(Op::Binary(l, r, k)) => l.0 < i && r.0 < i && k != BinaryOp::Sub && k != BinaryOp::Div,
        Some(Op::Unary(x, _)) => x.0 < i,
        None => true,
    }
}

/// Every node refers only to nodes created before it: the graph has no cycle.
pub open spec fn acyclic(g: Model) -> bool {
    forall|i: int| 0 <= i < g.len() ==> op_fits(#[trigger] g[i], i as nat)
}

/// `n` names a node of `g`.
pub open spec fn valid(g: Model, n: ValueId) -> bool {
    n.0 < g.len()
}

/// An arena of nodes. Nodes are only ever appended, each referring to nodes that
/// already exist, and are never changed afterwards.
pub struct Graph {
    nodes: Vec<Value_>,
}

impl View for Graph {
    type V = Model;

    closed spec fn view(&self) -> Model {
        Seq::new(self.nodes@.len(), |i: int| self.nodes@[i].op)
    }
}

impl Graph {
    /// Each node is stored at the position its identity names, and the graph is
    /// acyclic.
    pub closed spec fn wf(&self) -> bool {
        &&& forall|i: int| 0 <= i < self.nodes@.len() ==> (#[trigger] self.nodes@[i]).id.0 == i
        &&& acyclic(self@)
    }

    /// A well-formed graph is acyclic.
    pub proof fn lemma_acyclic(&self)
        requires
            self.wf(),
        ensures
            acyclic(self@),
    {
    }

    /// The label of node `n`.
    pub closed spec fn label_of(&self, n: ValueId) -> Seq<char> {
        self.nodes@[n.0 as int].label@
    }

    /// An empty graph.
    pub fn new() -> (r: Graph)
        ensures
            r.wf(),
            r@ == Seq::<Option<Op>>::empty(),
    {
        let r = Graph { nodes: Vec::new() };
        assert(r@ =~= Seq::<Option<Op>>::empty());
        r
    }

    /// Number of nodes.
    pub fn len(&self) -> (r: usize)
        ensures
            r == self@.len(),
    {
        self.nodes.len()
    }

    /// The provenance of node `n`.
    pub fn op(&self, n: ValueId) -> (r: Option<Op>)
        requires
            valid(self@, n),
        ensures
            r == self@[n.0 as int],
    {
        self.nodes[n.0].op
    }

    /// The label of node `n`.
    pub fn label(&self, n: ValueId) -> (r: &String)
        requires
            valid(self@, n),
        ensures
            r@ == self.label_of(n),
    {
        &self.nodes[n.0].label
    }

    /// Appends a node derived by `op`, with the given label.
    fn push(&mut self, op: Option<Op>, label: String) -> (r: ValueId)
        requires
            old(self).wf(),
            op_fits(op, old(self)@.len()),
        ensures
            final(self).wf(),
            final(self)@ == old(self)@.push(op),
            r.0 == old(self)@.len(),
            final(self).label_of(r) == label@,
            forall|m: ValueId| valid(old(self)@, m) ==> final(self).label_of(m) == old(self).label_of(m),
    {
        let id = ValueId::new(self.nodes.len());
        self.nodes.push(Value_ { op, label, id });
        assert(self@ =~= old(self)@.push(op));
        id
    }

    /// A leaf with an empty label: an input, a constant or a parameter.
    pub fn constant(&mut self) -> (r: ValueId)
        requires
            old(self).wf(),
        ensures
            final(self).wf(),
            final(self)@ == old(self)@.push(None),
            r.0 == old(self)@.len(),
            final(self).label_of(r) == Seq::<char>::empty(),
    {
        self.push(None, String::new())
    }

    /// A leaf with the given label.
    pub fn new_with_label(&mut self, label: String) -> (r: ValueId)
        requires
            old(self).wf(),
        ensures
            final(self).wf(),
            final(self)@ == old(self)@.push(None),
            r.0 == old(self)@.len(),
            final(self).label_of(r) == label@,
    {
        self.push(None, label)
    }

    /// Changes the label of node `n`; its provenance and identity stay as they are.
    pub fn set_label(&mut self, n: ValueId, label: String)
        requires
            old(self).wf(),
            valid(old(self)@, n),
        ensures
            final(self).wf(),
            final(self)@ == old(self)@,
            final(self).label_of(n) == label@,
    {
        let op = self.nodes[n.0].op;
        let id = self.nodes[n.0].id;
        self.nodes.set(n.0, Value_ { op, label, id });
        assert(self@ =~= old(self)@);
    }

    /// The sum `a + b`.
    pub fn add(&mut self, a: ValueId, b: ValueId) -> (r: ValueId)
        requires
            old(self).wf(),
            valid(old(self)@, a),
            valid(old(self)@, b),
        ensures
            final(self).wf(),
            final(self)@ == old(self)@.push(Some(Op::Binary(a, b, BinaryOp::Add))),
            r.0 == old(self)@.len(),
            final(self).label_of(r) == Seq::<char>::empty(),
    {
        self.push(Some(Op::Binary(a, b, BinaryOp::Add)), String::new())
    }

    /// The product `a * b`.
    pub fn mul(&mut self, a: ValueId, b: ValueId) -> (r: ValueId)
        requires
            old(self).wf(),
            valid(old(self)@, a),
            valid(old(self)@, b),
        ensures
            final(self).wf(),
            final(self)@ == old(self)@.push(Some(Op::Binary(a, b, BinaryOp::Mul))),
            r.0 == old(self)@.len(),
            final(self).label_of(r) == Seq::<char>::empty(),
    {
        self.push(Some(Op::Binary(a, b, BinaryOp::Mul)), String::new())
    }

    /// The power `a ^ b`. Only the base is differentiated: the exponent is
    /// meant to be a constant leaf.
    pub fn pow(&mut self, a: ValueId, b: ValueId) -> (r: ValueId)
        requires
            old(self).wf(),
            valid(old(self)@, a),
            valid(old(self)@, b),
        ensures
            final(self).wf(),
            final(self)@ == old(self)@.push(Some(Op::Binary(a, b, BinaryOp::Pow))),
            r.0 == old(self)@.len(),
            final(self).label_of(r) == Seq::<char>::empty(),
    {
        self.push(Some(Op::Binary(a, b, BinaryOp::Pow)), String::new())
    }

    /// The exponential `e ^ a`.
    pub fn exp(&mut self, a: ValueId) -> (r: ValueId)
        requires
            old(self).wf(),
            valid(old(self)@, a),
        ensures
            final(self).wf(),
            final(self)@ == old(self)@.push(Some(Op::Unary(a, UnaryOp::Exp))),
            r.0 == old(self)@.len(),
            final(self).label_of(r) == Seq::<char>::empty(),
    {
        self.push(Some(Op::Unary(a, UnaryOp::Exp)), String::new())
    }

    /// The hyperbolic tangent of `a`.
    pub fn tanh(&mut self, a: ValueId) -> (r: ValueId)
        requires
            old(self).wf(),
            valid(old(self)@, a),
        ensures
            final(self).wf(),
            final(self)@ == old(self)@.push(Some(Op::Unary(a, UnaryOp::Tanh))),
            r.0 == old(self)@.len(),
            final(self).label_of(r) == Seq::<char>::empty(),
    {
        self.push(Some(Op::Unary(a, UnaryOp::Tanh)), String::new())
    }

    /// The rectified linear unit `max(0, a)`.
    pub fn relu(&mut self, a: ValueId) -> (r: ValueId)
        requires
            old(self).wf(),
            valid(old(self)@, a),
        ensures
            final(self).wf(),
            final(self)@ == old(self)@.push(Some(Op::Unary(a, UnaryOp::Relu))),
            r.0 == old(self)@.len(),
            final(self).label_of(r) == Seq::<char>::empty(),
    {
        self.push(Some(Op::Unary(a, UnaryOp::Relu)), String::new())
    }

    /// The square `a * a`, built as a product of `a` with itself.
    pub fn sqrt(&mut self, a: ValueId) -> (r: ValueId)
        requires
            old(self).wf(),
            valid(old(self)@, a),
        ensures
            final(self).wf(),
            final(self)@ == old(self)@.push(Some(Op::Binary(a, a, BinaryOp::Mul))),
            r.0 == old(self)@.len(),
            final(self).label_of(r) == Seq::<char>::empty(),
    {
        self.mul(a, a)
    }
}

} // verus!

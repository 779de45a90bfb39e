use vstd::prelude::*;
use crate::graph::{acyclic, op_fits, operands_of, valid, Graph, Model};
use crate::node::{BinaryOp, Op, UnaryOp, ValueId};
use crate::topo::{earlier, lemma_topo_order, ordered, reaches, topo};

verus! {

/// The local derivative that one step multiplies the downstream gradient `g` by.
#[derive(Clone, Copy, Debug, PartialEq, Eq, Structural)]
pub enum Rule {
    /// Addition: the operand receives `g`.
    Identity,
    /// Multiplication: the operand receives `value(other) * g`, where `other` is the
    /// other factor.
    ScaledBy(ValueId),
    /// Power: the base receives `e * value(base) ^ (e - 1) * g`, where `e` is the
    /// value of the given exponent. The exponent itself receives nothing.
    PowerBase(ValueId),
    /// Hyperbolic tangent: the operand receives `(1 - value(node) ^ 2) * g`.
    Tanh,
    /// Exponential: the operand receives `value(node) * g`.
    Exp,
    /// Rectified linear unit: the operand receives `g` where its value is positive,
    /// and nothing otherwise.
    Relu,
}

/// One gradient contribution: `grad[operand] += rule * grad[node]`.
#[derive(Clone, Copy, Debug, PartialEq, Eq, Structural)]
pub struct Step {
    pub node: ValueId,
    pub operand: ValueId,
    pub rule: Rule,
}

/// The rule that passes a gradient through a unary operator.
pub open spec fn unary_rule(u: UnaryOp) -> Rule {
    match u {
        UnaryOp::Tanh => Rule::Tanh,
        UnaryOp::Exp => Rule::Exp,
        UnaryOp::Relu => Rule::Relu,
    }
}

/// The contributions that node `n` makes to its operands' gradients.
pub open spec fn local_steps(g: Model, n: ValueId) -> Seq<Step> {
    match g[n.0 as int] {
        Some(Op::Binary(l, r, BinaryOp::Add)) => seq![
            Step { node: n, operand: l, rule: Rule::Identity },
            Step { node: n, operand: r, rule: Rule::Identity },
        ],
        Some(Op::Binary(l, r, BinaryOp::Mul)) => seq![
            Step { node: n, operand: l, rule: Rule::ScaledBy(r) },
            Step { node: n, operand: r, rule: Rule::ScaledBy(l) },
        ],
        Some(Op::Binary(l, r, BinaryOp::Pow)) => seq![
            Step { node: n, operand: l, rule: Rule::PowerBase(r) },
        ],
        Some(Op::Binary(_, _, _)) => seq![],
        Some(Op::Unary(x, u)) => seq![Step { node: n, operand: x, rule: unary_rule(u) }],
        None => seq![],
    }
}

/// The contributions of the nodes of `s`, walked from last to first.
pub open spec fn plan(g: Model, s: Seq<ValueId>) -> Seq<Step>
    decreases s.len(),
{
    if s.len() == 0 {
        Seq::empty()
    } else {
        plan(g, s.drop_first()) + local_steps(g, s[0])
    }
}

/// The backward schedule from `root`: the contributions of every node that `root`
/// depends on, in reverse topological order.
pub open spec fn schedule(g: Model, root: ValueId) -> Seq<Step> {
    plan(g, topo(g, root))
}

proof fn lemma_local_steps(g: Model, n: ValueId)
    requires
        acyclic(g),
        valid(g, n),
    ensures
        forall|i: int|
            0 <= i < local_steps(g, n).len() ==> (#[trigger] local_steps(g, n)[i]).node == n
                && operands_of(g, n).contains(local_steps(g, n)[i].operand),
{
    assert(op_fits(g[n.0 as int], n.0 as nat));
    let ops = operands_of(g, n);
    match g[n.0 as int] {
        Some(Op::Binary(l, r, _)) => {
            assert(ops[0] == l && ops[1] == r);
        },
        Some(Op::Unary(x, _)) => {
            assert(ops[0] == x);
        },
        None => {},
    }
}

/// Over the nodes of `o` from position `k` on: each step comes from one of those
/// nodes along one of its edges, and no step feeds a node whose gradient an earlier
/// step has already read.
proof fn lemma_plan_suffix(g: Model, o: Seq<ValueId>, k: int)
    requires
        acyclic(g),
        ordered(g, o),
        0 <= k <= o.len(),
    ensures
        forall|i: int|
            0 <= i < plan(g, o.subrange(k, o.len() as int)).len() ==> {
                let st = #[trigger] plan(g, o.subrange(k, o.len() as int))[i];
                &&& o.subrange(k, o.len() as int).contains(st.node)
                &&& operands_of(g, st.node).contains(st.operand)
            },
        forall|i: int, j: int|
            0 <= i < j < plan(g, o.subrange(k, o.len() as int)).len() ==> (#[trigger] plan(
                g,
                o.subrange(k, o.len() as int),
            )[j]).operand != (#[trigger] plan(g, o.subrange(k, o.len() as int))[i]).node,
    decreases o.len() - k,
{
    let s = o.subrange(k, o.len() as int);
    if k < o.len() {
        lemma_plan_suffix(g, o, k + 1);
        let t = o.subrange(k + 1, o.len() as int);
        assert(s.drop_first() =~= t);
        let u = o[k];
        lemma_local_steps(g, u);
        let p = plan(g, t);
        let q = local_steps(g, u);
        assert(plan(g, s) == p + q);
        // each operand of `u` lies before position `k` of `o`
        assert forall|x: int| 0 <= x < q.len() implies exists|j: int|
            0 <= j < k && o[j] == (#[trigger] q[x]).operand by {
            let ops = operands_of(g, u);
            let c = choose|c: int| 0 <= c < ops.len() && ops[c] == q[x].operand;
            assert(earlier(o, operands_of(g, o[k])[c], k));
        }
        assert forall|i: int| 0 <= i < plan(g, s).len() implies {
            let st = #[trigger] plan(g, s)[i];
            &&& s.contains(st.node)
            &&& operands_of(g, st.node).contains(st.operand)
        } by {
            if i < p.len() {
                assert(plan(g, s)[i] == p[i]);
                let j = choose|j: int| 0 <= j < t.len() && t[j] == p[i].node;
                assert(s[j + 1] == t[j]);
            } else {
                assert(plan(g, s)[i] == q[i - p.len()]);
                assert(s[0] == u);
            }
        }
        assert forall|i: int, j: int| 0 <= i < j < plan(g, s).len() implies (#[trigger] plan(
            g,
            s,
        )[j]).operand != (#[trigger] plan(g, s)[i]).node by {
            if j < p.len() {
                assert(plan(g, s)[i] == p[i] && plan(g, s)[j] == p[j]);
            } else {
                let b = plan(g, s)[j];
                assert(b == q[j - p.len()]);
                let jj = choose|jj: int| 0 <= jj < k && o[jj] == b.operand;
                if i < p.len() {
                    assert(plan(g, s)[i] == p[i]);
                    let ii = choose|ii: int| 0 <= ii < t.len() && t[ii] == p[i].node;
                    assert(o[k + 1 + ii] == t[ii]);
                } else {
                    assert(plan(g, s)[i] == q[i - p.len()]);
                }
            }
        }
    } else {
        assert(s.len() == 0);
    }
}

/// Every step of the schedule from `root` comes from a node that `root` depends
/// on, along one of that node's edges; and once a step has read a node's gradient,
/// no later step adds to it, so each gradient is complete before it is used.
pub proof fn lemma_schedule(g: Model, root: ValueId)
    requires
        acyclic(g),
        valid(g, root),
    ensures
        forall|i: int|
            0 <= i < schedule(g, root).len() ==> {
                let st = #[trigger] schedule(g, root)[i];
                &&& reaches(g, root, st.node)
                &&& operands_of(g, st.node).contains(st.operand)
            },
        forall|i: int, j: int|
            0 <= i < j < schedule(g, root).len() ==> (#[trigger] schedule(g, root)[j]).operand
                != (#[trigger] schedule(g, root)[i]).node,
{
    let o = topo(g, root);
    lemma_topo_order(g, root);
    lemma_plan_ordered(g, o);
}

/// The steps of an ordered sequence's schedule follow its edges, and none feeds a
/// node whose gradient an earlier step has read.
pub(crate) proof fn lemma_plan_ordered(g: Model, o: Seq<ValueId>)
    requires
        acyclic(g),
        ordered(g, o),
    ensures
        forall|i: int|
            0 <= i < plan(g, o).len() ==> {
                let st = #[trigger] plan(g, o)[i];
                &&& o.contains(st.node)
                &&& operands_of(g, st.node).contains(st.operand)
            },
        forall|i: int, j: int|
            0 <= i < j < plan(g, o).len() ==> (#[trigger] plan(g, o)[j]).operand != (#[trigger] plan(
                g,
                o,
            )[i]).node,
{
    lemma_plan_suffix(g, o, 0);
    assert(o.subrange(0, o.len() as int) =~= o);
}

impl Graph {
    /// Appends the contributions that node `n` makes to its operands' gradients.
    fn push_local_steps(&self, n: ValueId, steps: &mut Vec<Step>)
        requires
            valid(self@, n),
        ensures
            final(steps)@ == old(steps)@ + local_steps(self@, n),
    {
        match self.op(n) {
            Some(Op::Binary(l, r, BinaryOp::Add)) => {
                steps.push(Step { node: n, operand: l, rule: Rule::Identity });
                steps.push(Step { node: n, operand: r, rule: Rule::Identity });
            },
            Some(Op::Binary(l, r, BinaryOp::Mul)) => {
                steps.push(Step { node: n, operand: l, rule: Rule::ScaledBy(r) });
                steps.push(Step { node: n, operand: r, rule: Rule::ScaledBy(l) });
            },
            Some(Op::Binary(l, r, BinaryOp::Pow)) => {
                steps.push(Step { node: n, operand: l, rule: Rule::PowerBase(r) });
            },
            Some(Op::Binary(_, _, _)) => {},
            Some(Op::Unary(x, u)) => {
                let rule = match u {
                    UnaryOp::Tanh => Rule::Tanh,
                    UnaryOp::Exp => Rule::Exp,
                    UnaryOp::Relu => Rule::Relu,
                };
                steps.push(Step { node: n, operand: x, rule });
            },
            None => {},
        }
        assert(steps@ =~= old(steps)@ + local_steps(self@, n));
    }

    /// The backward pass from `root` as a schedule of gradient contributions. Seeding
    /// `root` with gradient 1 and applying the steps in order, each as
    /// `grad[operand] += rule * grad[node]`, gives the derivative of `root` with
    /// respect to every node it depends on; a node that no step feeds has
    /// gradient 0.
    pub fn backward(&self, root: ValueId) -> (r: Vec<Step>)
        requires
            self.wf(),
            valid(self@, root),
        ensures
            r@ == schedule(self@, root),
            forall|i: int|
                0 <= i < r@.len() ==> reaches(self@, root, (#[trigger] r@[i]).node)
                    && operands_of(self@, r@[i].node).contains(r@[i].operand),
            forall|i: int, j: int|
                0 <= i < j < r@.len() ==> (#[trigger] r@[j]).operand != (#[trigger] r@[i]).node,
    {
        proof {
            self.lemma_acyclic();
            lemma_topo_order(self@, root);
            lemma_schedule(self@, root);
        }
        let order = self.topo_order(root);
        let mut steps: Vec<Step> = Vec::new();
        let mut k = order.len();
        assert(order@.subrange(k as int, k as int) =~= Seq::<ValueId>::empty());
        while k > 0
            invariant
                k <= order@.len(),
                order@ == topo(self@, root),
                ordered(self@, order@),
                steps@ == plan(self@, order@.subrange(k as int, order@.len() as int)),
            decreases k,
        {
            let n = order[k - 1];
            self.push_local_steps(n, &mut steps);
            assert(order@.subrange(k - 1, order@.len() as int).drop_first() =~= order@.subrange(
                k as int,
                order@.len() as int,
            ));
            k = k - 1;
        }
        assert(order@.subrange(0, order@.len() as int) =~= order@);
        steps
    }
}

} // verus!

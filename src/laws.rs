use vstd::prelude::*;
use crate::backward::{lemma_plan_ordered, local_steps, plan, schedule, unary_rule, Rule, Step};
use crate::graph::{acyclic, op_fits, operands_of, valid, Model};
use crate::node::{BinaryOp, Op, UnaryOp, ValueId};
use crate::topo::{dfs, lemma_dfs, lemma_fits, lemma_reaches_earlier, lemma_reaches_operands, lemma_topo_order, ordered, reaches, topo};

verus! {

proof fn lemma_plan_push(g: Model, s: Seq<ValueId>, x: ValueId)
    ensures
        plan(g, s.push(x)) == local_steps(g, x) + plan(g, s),
    decreases s.len(),
{
    if s.len() == 0 {
        assert(s.push(x).drop_first() =~= Seq::<ValueId>::empty());
        assert(plan(g, Seq::<ValueId>::empty()) =~= Seq::<Step>::empty());
        assert(s.push(x)[0] == x);
        assert(plan(g, s.push(x)) =~= local_steps(g, x) + plan(g, s));
    } else {
        assert(s.push(x).drop_first() =~= s.drop_first().push(x));
        lemma_plan_push(g, s.drop_first(), x);
        assert(plan(g, s.push(x)) =~= local_steps(g, x) + plan(g, s));
    }
}

proof fn lemma_reaches_trans(g: Model, a: ValueId, b: ValueId, c: ValueId)
    requires
        reaches(g, a, b),
        reaches(g, b, c),
    ensures
        reaches(g, a, c),
    decreases a.0,
{
    if a != b {
        match g[a.0 as int] {
            Some(Op::Binary(l, r, _)) => {
                if l.0 < a.0 && reaches(g, l, b) {
                    lemma_reaches_trans(g, l, b, c);
                } else {
                    lemma_reaches_trans(g, r, b, c);
                }
            },
            Some(Op::Unary(x, _)) => {
                lemma_reaches_trans(g, x, b, c);
            },
            None => {},
        }
    }
}

/// Each step of the schedule of an ordered sequence follows an edge of one of its
/// nodes.
proof fn lemma_plan_edges(g: Model, o: Seq<ValueId>)
    requires
        acyclic(g),
        ordered(g, o),
    ensures
        forall|i: int|
            0 <= i < plan(g, o).len() ==> o.contains((#[trigger] plan(g, o)[i]).node)
                && reaches(g, plan(g, o)[i].node, plan(g, o)[i].operand)
                && plan(g, o)[i].operand.0 < plan(g, o)[i].node.0,
{
    lemma_plan_ordered(g, o);
    assert forall|i: int| 0 <= i < plan(g, o).len() implies o.contains(
        (#[trigger] plan(g, o)[i]).node,
    ) && reaches(g, plan(g, o)[i].node, plan(g, o)[i].operand) && plan(g, o)[i].operand.0 < plan(
        g,
        o,
    )[i].node.0 by {
        let st = plan(g, o)[i];
        let j = choose|j: int| 0 <= j < o.len() && o[j] == st.node;
        let ops = operands_of(g, st.node);
        let k = choose|k: int| 0 <= k < ops.len() && ops[k] == st.operand;
        lemma_reaches_operands(g, st.node);
        lemma_fits(g, st.node);
    }
}

/// Appending a node derived by `op` keeps a graph acyclic.
proof fn lemma_push_acyclic(g: Model, op: Option<Op>)
    requires
        acyclic(g),
        op_fits(op, g.len()),
    ensures
        acyclic(g.push(op)),
{
    let h = g.push(op);
    assert forall|i: int| 0 <= i < h.len() implies op_fits(#[trigger] h[i], i as nat) by {
        if i < g.len() {
            assert(h[i] == g[i]);
        }
    }
}

/// The schedule from `c`, where `c` depends only on `a`: `c`'s own steps, then the
/// schedule from `a`, none of whose steps feeds `a`.
proof fn lemma_schedule_single(h: Model, a: ValueId, c: ValueId)
    requires
        acyclic(h),
        valid(h, c),
        a.0 < c.0,
        topo(h, c) == topo(h, a).push(c),
    ensures
        schedule(h, c) == local_steps(h, c) + schedule(h, a),
        forall|i: int| 0 <= i < schedule(h, a).len() ==> (#[trigger] schedule(h, a)[i]).operand != a,
{
    lemma_plan_push(h, topo(h, a), c);
    lemma_topo_order(h, a);
    lemma_plan_edges(h, topo(h, a));
    assert forall|i: int| 0 <= i < schedule(h, a).len() implies (#[trigger] schedule(
        h,
        a,
    )[i]).operand != a by {
        let st = schedule(h, a)[i];
        lemma_reaches_earlier(h, a, st.node);
    }
}

/// Adding a node to itself: with `c = a + a`, the schedule from `c` starts with two
/// steps that each pass `c`'s gradient to `a` unchanged, and no later step feeds
/// `a`. So `a`'s gradient is twice that of `c`.
pub proof fn lemma_add_same_operand(g: Model, a: ValueId, c: ValueId)
    requires
        acyclic(g),
        valid(g, a),
        c.0 == g.len(),
    ensures
        ({
            let h = g.push(Some(Op::Binary(a, a, BinaryOp::Add)));
            let s = schedule(h, c);
            &&& s.len() >= 2
            &&& s[0] == Step { node: c, operand: a, rule: Rule::Identity }
            &&& s[1] == Step { node: c, operand: a, rule: Rule::Identity }
            &&& forall|i: int| 2 <= i < s.len() ==> (#[trigger] s[i]).operand != a
        }),
{
    let h = g.push(Some(Op::Binary(a, a, BinaryOp::Add)));
    lemma_push_acyclic(g, Some(Op::Binary(a, a, BinaryOp::Add)));
    assert(h[a.0 as int] == g[a.0 as int]);
    lemma_dfs(h, Seq::empty(), a);
    assert(reaches(h, a, a));
    assert(topo(h, a).contains(a));
    assert(dfs(h, topo(h, a), a) == topo(h, a));
    assert(h[c.0 as int] == Some(Op::Binary(a, a, BinaryOp::Add)));
    assert(!Seq::<ValueId>::empty().contains(c));
    assert(dfs(h, Seq::empty(), c) == dfs(h, dfs(h, Seq::empty(), a), a).push(c));
    assert(topo(h, c) == topo(h, a).push(c));
    lemma_schedule_single(h, a, c);
    let s = schedule(h, c);
    assert forall|i: int| 2 <= i < s.len() implies (#[trigger] s[i]).operand != a by {
        assert(s[i] == schedule(h, a)[i - 2]);
    }
}

/// Chain rule through a unary operator: with `c = u(a)` (`tanh`, `exp` or `relu`),
/// the schedule from `c` starts with the one step that passes `c`'s gradient to `a`
/// through `u`'s derivative, and no later step feeds `a`. For `tanh` that step
/// gives `a` the gradient `(1 - tanh(a) ^ 2)` times that of `c`.
pub proof fn lemma_unary_chain(g: Model, a: ValueId, c: ValueId, u: UnaryOp)
    requires
        acyclic(g),
        valid(g, a),
        c.0 == g.len(),
    ensures
        ({
            let h = g.push(Some(Op::Unary(a, u)));
            let s = schedule(h, c);
            &&& s.len() >= 1
            &&& s[0] == Step { node: c, operand: a, rule: unary_rule(u) }
            &&& forall|i: int| 1 <= i < s.len() ==> (#[trigger] s[i]).operand != a
        }),
{
    let h = g.push(Some(Op::Unary(a, u)));
    lemma_push_acyclic(g, Some(Op::Unary(a, u)));
    assert(h[a.0 as int] == g[a.0 as int]);
    assert(h[c.0 as int] == Some(Op::Unary(a, u)));
    assert(!Seq::<ValueId>::empty().contains(c));
    assert(a.0 < c.0 && c.0 < h.len());
    assert(dfs(h, Seq::empty(), c) == dfs(h, Seq::empty(), a).push(c));
    assert(topo(h, c) == topo(h, a).push(c));
    lemma_schedule_single(h, a, c);
    let s = schedule(h, c);
    assert forall|i: int| 1 <= i < s.len() implies (#[trigger] s[i]).operand != a by {
        assert(s[i] == schedule(h, a)[i - 1]);
    }
}

/// Product rule: with `c = a * b`, where neither factor depends on the other, the
/// schedule from `c` starts with a step that gives `a` the value of `b` times `c`'s
/// gradient and one that gives `b` the value of `a` times it, and no later step
/// feeds `a` or `b`.
pub proof fn lemma_product_rule(g: Model, a: ValueId, b: ValueId, c: ValueId)
    requires
        acyclic(g),
        valid(g, a),
        valid(g, b),
        !reaches(g, a, b),
        !reaches(g, b, a),
        c.0 == g.len(),
    ensures
        ({
            let h = g.push(Some(Op::Binary(a, b, BinaryOp::Mul)));
            let s = schedule(h, c);
            &&& s.len() >= 2
            &&& s[0] == Step { node: c, operand: a, rule: Rule::ScaledBy(b) }
            &&& s[1] == Step { node: c, operand: b, rule: Rule::ScaledBy(a) }
            &&& forall|i: int|
                2 <= i < s.len() ==> (#[trigger] s[i]).operand != a && s[i].operand != b
        }),
{
    let op = Some(Op::Binary(a, b, BinaryOp::Mul));
    let h = g.push(op);
    lemma_push_acyclic(g, op);
    assert(h[a.0 as int] == g[a.0 as int]);
    assert(h[b.0 as int] == g[b.0 as int]);
    lemma_reaches_prefix(g, op, a, b);
    lemma_reaches_prefix(g, op, b, a);
    let o = dfs(h, topo(h, a), b);
    lemma_topo_order(h, a);
    lemma_dfs(h, topo(h, a), b);
    assert(topo(h, c) == o.push(c));
    lemma_plan_push(h, o, c);
    lemma_plan_edges(h, o);
    let s = schedule(h, c);
    assert forall|i: int| 2 <= i < s.len() implies (#[trigger] s[i]).operand != a && s[i].operand
        != b by {
        let st = plan(h, o)[i - 2];
        assert(s[i] == st);
        if reaches(h, a, st.node) {
            lemma_reaches_earlier(h, a, st.node);
            if st.operand == b {
                lemma_reaches_trans(h, a, st.node, b);
            }
        } else {
            lemma_reaches_earlier(h, b, st.node);
            if st.operand == a {
                lemma_reaches_trans(h, b, st.node, a);
            }
        }
    }
}

/// Appending a node changes nothing that is reached from the nodes already there.
proof fn lemma_reaches_prefix(g: Model, op: Option<Op>, x: ValueId, y: ValueId)
    requires
        valid(g, x),
    ensures
        reaches(g.push(op), x, y) == reaches(g, x, y),
    decreases x.0,
{
    let h = g.push(op);
    assert(h[x.0 as int] == g[x.0 as int]);
    match g[x.0 as int] {
        Some(Op::Binary(l, r, _)) => {
            if l.0 < x.0 {
                lemma_reaches_prefix(g, op, l, y);
            }
            if r.0 < x.0 {
                lemma_reaches_prefix(g, op, r, y);
            }
        },
        Some(Op::Unary(z, _)) => {
            if z.0 < x.0 {
                lemma_reaches_prefix(g, op, z, y);
            }
        },
        None => {},
    }
}

/// Deriving the same expression again from the same operands makes a new node with
/// another identity and the same provenance, whose steps feed the same operands by
/// the same rules; its value, a function of that provenance, is the same.
pub proof fn lemma_rederive(g: Model, op: Option<Op>, c1: ValueId, c2: ValueId)
    requires
        acyclic(g),
        op_fits(op, g.len()),
        c1.0 == g.len(),
        c2.0 == g.len() + 1,
    ensures
        ({
            let h = g.push(op).push(op);
            &&& acyclic(h)
            &&& c1 != c2
            &&& h[c1.0 as int] == op
            &&& h[c2.0 as int] == op
            &&& local_steps(h, c1).len() == local_steps(h, c2).len()
            &&& forall|i: int|
                0 <= i < local_steps(h, c1).len() ==> (#[trigger] local_steps(h, c1)[i]).operand
                    == local_steps(h, c2)[i].operand && local_steps(h, c1)[i].rule == local_steps(
                    h,
                    c2,
                )[i].rule
        }),
{
    lemma_push_acyclic(g, op);
    lemma_push_acyclic(g.push(op), op);
}

/// A node that the root does not depend on is not in the root's topological order,
/// and no step of the root's schedule reads or feeds it: its gradient stays 0.
pub proof fn lemma_unused_node(g: Model, root: ValueId, n: ValueId)
    requires
        acyclic(g),
        valid(g, root),
        !reaches(g, root, n),
    ensures
        !topo(g, root).contains(n),
        forall|i: int|
            0 <= i < schedule(g, root).len() ==> (#[trigger] schedule(g, root)[i]).operand != n
                && schedule(g, root)[i].node != n,
{
    lemma_topo_order(g, root);
    lemma_plan_edges(g, topo(g, root));
    assert forall|i: int| 0 <= i < schedule(g, root).len() implies (#[trigger] schedule(
        g,
        root,
    )[i]).operand != n && schedule(g, root)[i].node != n by {
        let st = schedule(g, root)[i];
        if st.operand == n {
            lemma_reaches_trans(g, root, st.node, n);
        }
    }
}

} // verus!

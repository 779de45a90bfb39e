use vstd::prelude::*;
use crate::graph::{acyclic, op_fits, operands_of, valid, Graph, Model};
use crate::node::{Op, ValueId};

verus! {

/// `to` is reached from `from` by following provenance edges zero or more times.
pub open spec fn reaches(g: Model, from: ValueId, to: ValueId) -> bool
    decreases from.0,
{
    if from.0 >= g.len() {
        false
    } else if from == to {
        true
    } else {
        match g[from.0 as int] {
            Some(Op::Binary(l, r, _)) => (l.0 < from.0 && reaches(g, l, to)) || (r.0 < from.0
                && reaches(g, r, to)),
            Some(Op::Unary(x, _)) => x.0 < from.0 && reaches(g, x, to),
            None => false,
        }
    }
}

/// Depth-first walk from `n` that appends, after `seen`, each node not seen yet,
/// operands first (left before right), the node itself last.
pub open spec fn dfs(g: Model, seen: Seq<ValueId>, n: ValueId) -> Seq<ValueId>
    decreases n.0,
{
    if n.0 >= g.len() || seen.contains(n) {
        seen
    } else {
        match g[n.0 as int] {
            Some(Op::Binary(l, r, _)) => if l.0 < n.0 && r.0 < n.0 {
                dfs(g, dfs(g, seen, l), r).push(n)
            } else {
                seen.push(n)
            },
            Some(Op::Unary(x, _)) => if x.0 < n.0 {
                dfs(g, seen, x).push(n)
            } else {
                seen.push(n)
            },
            None => seen.push(n),
        }
    }
}

/// The topological order of the nodes that `root` depends on, `root` last.
pub open spec fn topo(g: Model, root: ValueId) -> Seq<ValueId> {
    dfs(g, Seq::empty(), root)
}

/// `x` occurs in `s` before position `i`.
pub open spec fn earlier(s: Seq<ValueId>, x: ValueId, i: int) -> bool {
    exists|j: int| 0 <= j < i && s[j] == x
}

/// `s` lists nodes of `g`, each once, each after all of its operands.
pub open spec fn ordered(g: Model, s: Seq<ValueId>) -> bool {
    &&& s.no_duplicates()
    &&& forall|i: int| 0 <= i < s.len() ==> valid(g, #[trigger] s[i])
    &&& forall|i: int, k: int|
        0 <= i < s.len() && 0 <= k < operands_of(g, s[i]).len() ==> #[trigger] earlier(
            s,
            operands_of(g, s[i])[k],
            i,
        )
}

pub(crate) proof fn lemma_fits(g: Model, n: ValueId)
    requires
        acyclic(g),
        valid(g, n),
    ensures
        op_fits(g[n.0 as int], n.0 as nat),
        forall|k: int| 0 <= k < operands_of(g, n).len() ==> (#[trigger] operands_of(g, n)[k]).0 < n.0,
{
    assert(op_fits(g[n.0 as int], n.0 as nat));
}

/// Only nodes created no later than `a` are reached from `a`.
pub proof fn lemma_reaches_earlier(g: Model, a: ValueId, b: ValueId)
    requires
        reaches(g, a, b),
    ensures
        b.0 <= a.0,
    decreases a.0,
{
    if a != b {
        match g[a.0 as int] {
            Some(Op::Binary(l, r, _)) => {
                if l.0 < a.0 && reaches(g, l, b) {
                    lemma_reaches_earlier(g, l, b);
                } else {
                    lemma_reaches_earlier(g, r, b);
                }
            },
            Some(Op::Unary(x, _)) => {
                lemma_reaches_earlier(g, x, b);
            },
            None => {},
        }
    }
}

/// The operands of a node are reached from it.
pub proof fn lemma_reaches_operands(g: Model, n: ValueId)
    requires
        acyclic(g),
        valid(g, n),
    ensures
        forall|k: int| 0 <= k < operands_of(g, n).len() ==> reaches(g, n, #[trigger] operands_of(g, n)[k]),
{
    lemma_fits(g, n);
    assert forall|k: int| 0 <= k < operands_of(g, n).len() implies reaches(g, n, #[trigger] operands_of(g, n)[k]) by {
        let x = operands_of(g, n)[k];
        assert(reaches(g, x, x));
    }
}

/// What an ordered sequence holds is closed under reaching.
pub(crate) proof fn lemma_ordered_closed(g: Model, s: Seq<ValueId>, x: ValueId, m: ValueId)
    requires
        acyclic(g),
        ordered(g, s),
        s.contains(x),
        reaches(g, x, m),
    ensures
        s.contains(m),
    decreases x.0,
{
    if x != m {
        let i = choose|i: int| 0 <= i < s.len() && s[i] == x;
        lemma_fits(g, x);
        let ops = operands_of(g, x);
        assert forall|k: int| 0 <= k < ops.len() implies s.contains(#[trigger] ops[k]) by {
            assert(earlier(s, operands_of(g, s[i])[k], i));
        }
        match g[x.0 as int] {
            Some(Op::Binary(l, r, _)) => {
                assert(ops[0] == l && ops[1] == r);
                if reaches(g, l, m) {
                    lemma_ordered_closed(g, s, l, m);
                } else {
                    lemma_ordered_closed(g, s, r, m);
                }
            },
            Some(Op::Unary(y, _)) => {
                assert(ops[0] == y);
                lemma_ordered_closed(g, s, y, m);
            },
            None => {},
        }
    }
}

proof fn lemma_ordered_push(g: Model, s: Seq<ValueId>, n: ValueId)
    requires
        ordered(g, s),
        valid(g, n),
        !s.contains(n),
        forall|k: int| 0 <= k < operands_of(g, n).len() ==> s.contains(#[trigger] operands_of(g, n)[k]),
    ensures
        ordered(g, s.push(n)),
{
    let t = s.push(n);
    assert forall|i: int, k: int|
        0 <= i < t.len() && 0 <= k < operands_of(g, t[i]).len() implies #[trigger] earlier(
        t,
        operands_of(g, t[i])[k],
        i,
    ) by {
        let x = operands_of(g, t[i])[k];
        if i < s.len() {
            assert(t[i] == s[i]);
            assert(earlier(s, operands_of(g, s[i])[k], i));
            let j = choose|j: int| 0 <= j < i && s[j] == x;
            assert(t[j] == x);
        } else {
            assert(s.contains(x));
            let j = choose|j: int| 0 <= j < s.len() && s[j] == x;
            assert(t[j] == x);
        }
    }
    assert forall|i: int, j: int| 0 <= i < j < t.len() implies t[i] != t[j] by {
        if j == s.len() {
            assert(s[i] == t[i]);
        }
    }
}

pub(crate) proof fn lemma_dfs(g: Model, seen: Seq<ValueId>, n: ValueId)
    requires
        acyclic(g),
        ordered(g, seen),
        valid(g, n),
    ensures
        ordered(g, dfs(g, seen, n)),
        forall|m: ValueId| #[trigger]
            dfs(g, seen, n).contains(m) <==> seen.contains(m) || reaches(g, n, m),
    decreases n.0,
{
    let d = dfs(g, seen, n);
    lemma_fits(g, n);
    if seen.contains(n) {
        assert forall|m: ValueId| reaches(g, n, m) implies seen.contains(m) by {
            lemma_ordered_closed(g, seen, n, m);
        }
    } else {
        broadcast use vstd::seq_lib::lemma_seq_contains_after_push;

        lemma_reaches_operands(g, n);
        match g[n.0 as int] {
            Some(Op::Binary(l, r, _)) => {
                lemma_dfs(g, seen, l);
                let s1 = dfs(g, seen, l);
                lemma_dfs(g, s1, r);
                let s2 = dfs(g, s1, r);
                assert(!s2.contains(n)) by {
                    if reaches(g, l, n) {
                        lemma_reaches_earlier(g, l, n);
                    }
                    if reaches(g, r, n) {
                        lemma_reaches_earlier(g, r, n);
                    }
                }
                assert(operands_of(g, n)[0] == l && operands_of(g, n)[1] == r);
                lemma_ordered_push(g, s2, n);
            },
            Some(Op::Unary(x, _)) => {
                lemma_dfs(g, seen, x);
                let s1 = dfs(g, seen, x);
                assert(!s1.contains(n)) by {
                    if reaches(g, x, n) {
                        lemma_reaches_earlier(g, x, n);
                    }
                }
                assert(operands_of(g, n)[0] == x);
                lemma_ordered_push(g, s1, n);
            },
            None => {
                lemma_ordered_push(g, seen, n);
            },
        }
    }
}

/// The topological order from `root` lists every node that `root` depends on and
/// no other, each exactly once, and each strictly after all of its operands.
pub proof fn lemma_topo_order(g: Model, root: ValueId)
    requires
        acyclic(g),
        valid(g, root),
    ensures
        ordered(g, topo(g, root)),
        forall|m: ValueId| #[trigger] topo(g, root).contains(m) <==> reaches(g, root, m),
{
    lemma_dfs(g, Seq::empty(), root);
}

impl Graph {
    /// Appends to `topo` the nodes that `n` depends on and that are not yet in it,
    /// operands first; `visited` marks what `topo` holds.
    fn build_topo(&self, n: ValueId, visited: &mut Vec<bool>, topo: &mut Vec<ValueId>)
        requires
            self.wf(),
            valid(self@, n),
            ordered(self@, old(topo)@),
            old(visited)@.len() == self@.len(),
            forall|m: ValueId|
                valid(self@, m) ==> (old(visited)@[m.0 as int] <==> #[trigger] old(topo)@.contains(m)),
        ensures
            final(topo)@ == dfs(self@, old(topo)@, n),
            ordered(self@, final(topo)@),
            final(visited)@.len() == self@.len(),
            forall|m: ValueId|
                valid(self@, m) ==> (final(visited)@[m.0 as int] <==> #[trigger] final(topo)@.contains(m)),
        decreases n.0,
    {
        proof {
            self.lemma_acyclic();
            lemma_fits(self@, n);
            lemma_dfs(self@, topo@, n);
        }
        if visited[n.0] {
            return;
        }
        match self.op(n) {
            Some(Op::Binary(l, r, _)) => {
                self.build_topo(l, visited, topo);
                self.build_topo(r, visited, topo);
            },
            Some(Op::Unary(x, _)) => {
                self.build_topo(x, visited, topo);
            },
            None => {},
        }
        let ghost before = topo@;
        let ghost marks = visited@;
        visited.set(n.0, true);
        topo.push(n);
        proof {
            broadcast use vstd::seq_lib::lemma_seq_contains_after_push;

            assert forall|m: ValueId| valid(self@, m) implies (visited@[m.0 as int]
                <==> #[trigger] topo@.contains(m)) by {
                assert(topo@ == before.push(n));
                assert(visited@ == marks.update(n.0 as int, true));
                if m.0 != n.0 {
                    assert(marks[m.0 as int] <==> before.contains(m));
                }
            }
        }
    }

    /// The nodes that `root` depends on, `root` included, in topological order:
    /// operands before the nodes computed from them.
    pub fn topo_order(&self, root: ValueId) -> (r: Vec<ValueId>)
        requires
            self.wf(),
            valid(self@, root),
        ensures
            r@ == topo(self@, root),
            ordered(self@, r@),
            forall|m: ValueId| #[trigger] r@.contains(m) <==> reaches(self@, root, m),
    {
        proof {
            self.lemma_acyclic();
            lemma_topo_order(self@, root);
        }
        let mut visited: Vec<bool> = Vec::new();
        let n = self.len();
        let mut i: usize = 0;
        while i < n
            invariant
                i <= n,
                n == self@.len(),
                visited@.len() == i,
                forall|j: int| 0 <= j < i ==> !visited@[j],
            decreases n - i,
        {
            visited.push(false);
            i = i + 1;
        }
        let mut topo: Vec<ValueId> = Vec::new();
        self.build_topo(root, &mut visited, &mut topo);
        topo
    }
}

} // verus!

use vstd::prelude::*;
use crate::graph::{valid, Graph, Model};
use crate::node::{BinaryOp, Op, UnaryOp, ValueId};

verus! {

/// The running sum after `k` terms of a weighted sum whose nodes start at position
/// `start`: the bias at first, then the latest sum node.
pub open spec fn acc_after(start: int, bias: ValueId, k: int) -> ValueId {
    if k == 0 {
        bias
    } else {
        ValueId((start + 2 * k - 1) as usize)
    }
}

/// The nodes appended, from position `start` on, for the first `k` terms of
/// `bias + w[0] * x[0] + w[1] * x[1] + ...`: each term's product, then the sum so far.
pub open spec fn sum_nodes(start: int, w: Seq<ValueId>, x: Seq<ValueId>, bias: ValueId, k: int) -> Seq<
    Option<Op>,
> {
    Seq::new(
        (2 * k) as nat,
        |p: int|
            if p % 2 == 0 {
                Some(Op::Binary(w[p / 2], x[p / 2], BinaryOp::Mul))
            } else {
                Some(
                    Op::Binary(
                        acc_after(start, bias, p / 2),
                        ValueId((start + p - 1) as usize),
                        BinaryOp::Add,
                    ),
                )
            },
    )
}

/// A neuron: the weighted sum of its inputs plus a bias, passed through `tanh`
/// when `non_lin` holds.
pub struct Neuron {
    pub weights: Vec<ValueId>,
    pub bias: ValueId,
    pub non_lin: bool,
}

/// The number of terms a neuron sums over these inputs: one per weight that has an
/// input.
pub open spec fn terms(n: Neuron, x: Seq<ValueId>) -> int {
    if n.weights@.len() <= x.len() {
        n.weights@.len() as int
    } else {
        x.len() as int
    }
}

/// The nodes that `forward` appends to a graph of `start` nodes.
pub open spec fn neuron_nodes(n: Neuron, x: Seq<ValueId>, start: int) -> Seq<Option<Op>> {
    let k = terms(n, x);
    sum_nodes(start, n.weights@, x, n.bias, k) + if n.non_lin {
        seq![Some(Op::Unary(acc_after(start, n.bias, k), UnaryOp::Tanh))]
    } else {
        Seq::empty()
    }
}

/// The node that `forward` returns, on a graph of `start` nodes.
pub open spec fn neuron_output(n: Neuron, x: Seq<ValueId>, start: int) -> ValueId {
    let k = terms(n, x);
    if n.non_lin {
        ValueId((start + 2 * k) as usize)
    } else {
        acc_after(start, n.bias, k)
    }
}

/// The weights, then the bias.
pub open spec fn neuron_params(n: Neuron) -> Seq<ValueId> {
    n.weights@.push(n.bias)
}

/// All the nodes of `s` are nodes of `g`.
pub open spec fn all_valid(g: Model, s: Seq<ValueId>) -> bool {
    forall|i: int| 0 <= i < s.len() ==> valid(g, #[trigger] s[i])
}

/// `n` fresh leaves.
pub open spec fn leaves(n: nat) -> Seq<Option<Op>> {
    Seq::new(n, |i: int| None)
}

impl Neuron {
    /// A neuron over `nin` inputs, whose weights and bias are fresh leaves of `g`,
    /// created in that order.
    pub fn new(g: &mut Graph, nin: usize, non_lin: bool) -> (r: Neuron)
        requires
            old(g).wf(),
        ensures
            final(g).wf(),
            final(g)@ == old(g)@ + leaves((nin + 1) as nat),
            r.weights@.len() == nin,
            forall|k: int| 0 <= k < nin ==> (#[trigger] r.weights@[k]).0 == old(g)@.len() + k,
            r.bias.0 == old(g)@.len() + nin,
            r.non_lin == non_lin,
    {
        let mut weights: Vec<ValueId> = Vec::new();
        let mut i: usize = 0;
        while i < nin
            invariant
                i <= nin,
                g.wf(),
                g@ =~= old(g)@ + leaves(i as nat),
                weights@.len() == i,
                forall|k: int| 0 <= k < i ==> (#[trigger] weights@[k]).0 == old(g)@.len() + k,
            decreases nin - i,
        {
            let w = g.constant();
            weights.push(w);
            i = i + 1;
            assert(g@ =~= old(g)@ + leaves(i as nat));
        }
        let bias = g.constant();
        assert(g@ =~= old(g)@ + leaves((nin + 1) as nat));
        Neuron { weights, bias, non_lin }
    }

    /// Builds `tanh(bias + w[0] * x[0] + w[1] * x[1] + ...)` in `g`, or the sum alone
    /// for a linear neuron, pairing weights with inputs while both last.
    pub fn forward(&self, g: &mut Graph, inputs: &[ValueId]) -> (r: ValueId)
        requires
            old(g).wf(),
            all_valid(old(g)@, self.weights@),
            valid(old(g)@, self.bias),
            all_valid(old(g)@, inputs@),
        ensures
            final(g).wf(),
            final(g)@ == old(g)@ + neuron_nodes(*self, inputs@, old(g)@.len() as int),
            r == neuron_output(*self, inputs@, old(g)@.len() as int),
            valid(final(g)@, r),
    {
        let ghost start = old(g)@.len() as int;
        let k = if self.weights.len() <= inputs.len() {
            self.weights.len()
        } else {
            inputs.len()
        };
        let mut acc = self.bias;
        let mut i: usize = 0;
        while i < k
            invariant
                i <= k,
                k == terms(*self, inputs@),
                g.wf(),
                start == old(g)@.len(),
                g@ =~= old(g)@ + sum_nodes(start, self.weights@, inputs@, self.bias, i as int),
                acc == acc_after(start, self.bias, i as int),
                all_valid(old(g)@, self.weights@),
                valid(old(g)@, self.bias),
                all_valid(old(g)@, inputs@),
            decreases k - i,
        {
            let ghost before = g@;
            let m = g.mul(self.weights[i], inputs[i]);
            acc = g.add(acc, m);
            i = i + 1;
            assert(g@ =~= old(g)@ + sum_nodes(start, self.weights@, inputs@, self.bias, i as int))
                by {
                let s = sum_nodes(start, self.weights@, inputs@, self.bias, i as int);
                let s0 = sum_nodes(start, self.weights@, inputs@, self.bias, i - 1);
                assert forall|p: int| 0 <= p < s.len() implies s[p] == (s0 + seq![
                    Some(Op::Binary(self.weights@[i - 1], inputs@[i - 1], BinaryOp::Mul)),
                    Some(
                        Op::Binary(
                            acc_after(start, self.bias, i - 1),
                            ValueId((start + 2 * i - 2) as usize),
                            BinaryOp::Add,
                        ),
                    ),
                ])[p] by {
                    if p == 2 * i - 2 {
                        assert(p % 2 == 0 && p / 2 == i - 1);
                    } else if p == 2 * i - 1 {
                        assert(p % 2 == 1 && p / 2 == i - 1);
                    }
                }
            }
        }
        if self.non_lin {
            let t = g.tanh(acc);
            assert(g@ =~= old(g)@ + neuron_nodes(*self, inputs@, start));
            t
        } else {
            assert(g@ =~= old(g)@ + neuron_nodes(*self, inputs@, start));
            acc
        }
    }

    /// The weights, then the bias.
    pub fn parameters(&self) -> (r: Vec<ValueId>)
        ensures
            r@ == neuron_params(*self),
    {
        let mut r = self.weights.clone();
        r.push(self.bias);
        r
    }

    /// Replaces the weights and the bias.
    pub fn update(&mut self, weights: Vec<ValueId>, bias: ValueId)
        ensures
            final(self).weights@ == weights@,
            final(self).bias == bias,
            final(self).non_lin == old(self).non_lin,
    {
        self.weights = weights;
        self.bias = bias;
    }
}

/// The parameters of every neuron of `ns` are nodes of `g`.
pub open spec fn neurons_valid(g: Model, ns: Seq<Neuron>) -> bool {
    forall|k: int| 0 <= k < ns.len() ==> all_valid(g, neuron_params(#[trigger] ns[k]))
}

/// The nodes that the neurons of `ns` append, one after the other, to a graph of
/// `start` nodes, all reading inputs `x`.
pub open spec fn layer_nodes(ns: Seq<Neuron>, x: Seq<ValueId>, start: int) -> Seq<Option<Op>>
    decreases ns.len(),
{
    if ns.len() == 0 {
        Seq::empty()
    } else {
        let pre = layer_nodes(ns.drop_last(), x, start);
        pre + neuron_nodes(ns.last(), x, start + pre.len())
    }
}

/// The outputs of the neurons of `ns`, built one after the other on a graph of
/// `start` nodes.
pub open spec fn layer_outputs(ns: Seq<Neuron>, x: Seq<ValueId>, start: int) -> Seq<ValueId>
    decreases ns.len(),
{
    if ns.len() == 0 {
        Seq::empty()
    } else {
        let pre = layer_nodes(ns.drop_last(), x, start);
        layer_outputs(ns.drop_last(), x, start).push(
            neuron_output(ns.last(), x, start + pre.len()),
        )
    }
}

/// The parameters of the neurons of `ns`, neuron by neuron.
pub open spec fn layer_params(ns: Seq<Neuron>) -> Seq<ValueId>
    decreases ns.len(),
{
    if ns.len() == 0 {
        Seq::empty()
    } else {
        layer_params(ns.drop_last()) + neuron_params(ns.last())
    }
}

/// `m` has the shape of `n`: as many weights, and the same activation.
pub open spec fn same_shape(n: Neuron, m: Neuron) -> bool {
    n.weights@.len() == m.weights@.len() && n.non_lin == m.non_lin
}

/// A layer of neurons that all read the same inputs.
pub struct Layer {
    pub neurons: Vec<Neuron>,
}

impl Layer {
    /// `nout` neurons with `tanh` over `nin` inputs each, whose parameters are
    /// fresh leaves of `g`.
    pub fn new(g: &mut Graph, nin: usize, nout: usize) -> (r: Layer)
        requires
            old(g).wf(),
        ensures
            final(g).wf(),
            final(g)@ == old(g)@ + leaves((nout * (nin + 1)) as nat),
            r.neurons@.len() == nout,
            forall|k: int|
                0 <= k < nout ==> (#[trigger] r.neurons@[k]).weights@.len() == nin
                    && r.neurons@[k].non_lin,
            neurons_valid(final(g)@, r.neurons@),
    {
        let mut neurons: Vec<Neuron> = Vec::new();
        let mut i: usize = 0;
        while i < nout
            invariant
                i <= nout,
                g.wf(),
                g@ =~= old(g)@ + leaves((i * (nin + 1)) as nat),
                neurons@.len() == i,
                forall|k: int|
                    0 <= k < i ==> (#[trigger] neurons@[k]).weights@.len() == nin
                        && neurons@[k].non_lin,
                neurons_valid(g@, neurons@),
            decreases nout - i,
        {
            let ghost before = g@;
            let n = Neuron::new(g, nin, true);
            proof {
                assert((i + 1) * (nin + 1) == i * (nin + 1) + nin + 1) by (nonlinear_arith);
                assert(g@ =~= old(g)@ + leaves(((i + 1) * (nin + 1)) as nat));
                assert forall|k: int| 0 <= k < neuron_params(n).len() implies valid(
                    g@,
                    #[trigger] neuron_params(n)[k],
                ) by {
                    if k < nin {
                        assert(neuron_params(n)[k] == n.weights@[k]);
                    }
                }
                assert forall|k: int| 0 <= k < i implies all_valid(
                    g@,
                    neuron_params(#[trigger] neurons@[k]),
                ) by {
                    assert(all_valid(before, neuron_params(neurons@[k])));
                }
            }
            neurons.push(n);
            i = i + 1;
        }
        Layer { neurons }
    }

    /// Builds the output of every neuron on the same inputs, in order.
    pub fn forward(&self, g: &mut Graph, inputs: &[ValueId]) -> (r: Vec<ValueId>)
        requires
            old(g).wf(),
            neurons_valid(old(g)@, self.neurons@),
            all_valid(old(g)@, inputs@),
        ensures
            final(g).wf(),
            final(g)@ == old(g)@ + layer_nodes(self.neurons@, inputs@, old(g)@.len() as int),
            r@ == layer_outputs(self.neurons@, inputs@, old(g)@.len() as int),
            all_valid(final(g)@, r@),
    {
        let ghost start = old(g)@.len() as int;
        let mut out: Vec<ValueId> = Vec::new();
        let mut i: usize = 0;
        while i < self.neurons.len()
            invariant
                i <= self.neurons@.len(),
                g.wf(),
                start == old(g)@.len(),
                g@ =~= old(g)@ + layer_nodes(self.neurons@.take(i as int), inputs@, start),
                out@ == layer_outputs(self.neurons@.take(i as int), inputs@, start),
                all_valid(g@, out@),
                neurons_valid(old(g)@, self.neurons@),
                all_valid(old(g)@, inputs@),
            decreases self.neurons@.len() - i,
        {
            let ghost before = g@;
            let n = &self.neurons[i];
            proof {
                assert(all_valid(old(g)@, neuron_params(*n)));
                assert forall|k: int| 0 <= k < n.weights@.len() implies valid(
                    before,
                    #[trigger] n.weights@[k],
                ) by {
                    assert(neuron_params(*n)[k] == n.weights@[k]);
                }
                assert(neuron_params(*n)[n.weights@.len() as int] == n.bias);
            }
            let o = n.forward(g, inputs);
            proof {
                let t = self.neurons@.take(i + 1);
                assert(t.drop_last() =~= self.neurons@.take(i as int));
                assert(t.last() == *n);
            }
            out.push(o);
            i = i + 1;
        }
        assert(self.neurons@.take(self.neurons@.len() as int) =~= self.neurons@);
        out
    }

    /// The parameters of every neuron, neuron by neuron.
    pub fn parameters(&self) -> (r: Vec<ValueId>)
        ensures
            r@ == layer_params(self.neurons@),
    {
        let mut r: Vec<ValueId> = Vec::new();
        let mut i: usize = 0;
        while i < self.neurons.len()
            invariant
                i <= self.neurons@.len(),
                r@ == layer_params(self.neurons@.take(i as int)),
            decreases self.neurons@.len() - i,
        {
            let mut p = self.neurons[i].parameters();
            r.append(&mut p);
            proof {
                let t = self.neurons@.take(i + 1);
                assert(t.drop_last() =~= self.neurons@.take(i as int));
            }
            i = i + 1;
        }
        assert(self.neurons@.take(self.neurons@.len() as int) =~= self.neurons@);
        r
    }

    /// A layer of the same shape whose parameters, neuron by neuron, are those of
    /// `parameters` from position `start` on.
    fn updated(&self, parameters: &Vec<ValueId>, start: usize) -> (r: Layer)
        requires
            start + layer_params(self.neurons@).len() <= parameters@.len(),
        ensures
            r.neurons@.len() == self.neurons@.len(),
            forall|k: int|
                0 <= k < self.neurons@.len() ==> same_shape(
                    #[trigger] self.neurons@[k],
                    r.neurons@[k],
                ),
            layer_params(r.neurons@) == parameters@.subrange(
                start as int,
                start + layer_params(self.neurons@).len(),
            ),
    {
        let total = parameters.len();
        let mut neurons: Vec<Neuron> = Vec::new();
        let mut pos = start;
        let mut i: usize = 0;
        assert(parameters@.subrange(start as int, start as int) =~= Seq::<ValueId>::empty());
        while i < self.neurons.len()
            invariant
                i <= self.neurons@.len(),
                start + layer_params(self.neurons@).len() <= parameters@.len(),
                total == parameters@.len(),
                pos == start + layer_params(self.neurons@.take(i as int)).len(),
                neurons@.len() == i,
                forall|k: int|
                    0 <= k < i ==> same_shape(#[trigger] self.neurons@[k], neurons@[k]),
                layer_params(neurons@) == parameters@.subrange(start as int, pos as int),
            decreases self.neurons@.len() - i,
        {
            proof {
                let t = self.neurons@.take(i + 1);
                assert(t.drop_last() =~= self.neurons@.take(i as int));
                lemma_layer_params_take(self.neurons@, i + 1);
            }
            let wl = self.neurons[i].weights.len();
            proof {
                let t = self.neurons@.take(i + 1);
                assert(t.last() == self.neurons@[i as int]);
                assert(layer_params(t).len() == pos - start + wl + 1);
            }
            let mut weights: Vec<ValueId> = Vec::new();
            let mut j: usize = 0;
            while j < wl
                invariant
                    j <= wl,
                    pos + wl < parameters@.len(),
                    total == parameters@.len(),
                    weights@ == parameters@.subrange(pos as int, pos + j),
                decreases wl - j,
            {
                weights.push(parameters[pos + j]);
                j = j + 1;
                assert(weights@ =~= parameters@.subrange(pos as int, pos + j));
            }
            let n = Neuron { weights, bias: parameters[pos + wl], non_lin: self.neurons[i].non_lin };
            let ghost prev = neurons@;
            neurons.push(n);
            proof {
                assert(neurons@.drop_last() =~= prev);
                assert(layer_params(neurons@) =~= parameters@.subrange(
                    start as int,
                    pos + wl + 1,
                ));
            }
            pos = pos + wl + 1;
            i = i + 1;
        }
        assert(self.neurons@.take(self.neurons@.len() as int) =~= self.neurons@);
        Layer { neurons }
    }

    /// Gives the neurons, in order, the leading parameters of `parameters`: to each
    /// as many weights as it has, then its bias. The shape stays as it is.
    pub fn update(&mut self, parameters: Vec<ValueId>)
        requires
            layer_params(old(self).neurons@).len() <= parameters@.len(),
        ensures
            final(self).neurons@.len() == old(self).neurons@.len(),
            forall|k: int|
                0 <= k < old(self).neurons@.len() ==> same_shape(
                    #[trigger] old(self).neurons@[k],
                    final(self).neurons@[k],
                ),
            layer_params(final(self).neurons@) == parameters@.take(
                layer_params(old(self).neurons@).len() as int,
            ),
    {
        let r = self.updated(&parameters, 0);
        assert(parameters@.subrange(0, layer_params(self.neurons@).len() as int) =~= parameters@.take(
            layer_params(self.neurons@).len() as int,
        ));
        *self = r;
    }
}

proof fn lemma_layer_params_take(ns: Seq<Neuron>, i: int)
    requires
        0 <= i <= ns.len(),
    ensures
        layer_params(ns.take(i)).len() <= layer_params(ns).len(),
    decreases ns.len(),
{
    if i < ns.len() {
        assert(ns.drop_last().take(i) =~= ns.take(i));
        lemma_layer_params_take(ns.drop_last(), i);
    } else {
        assert(ns.take(i) =~= ns);
    }
}

/// The parameters of every neuron of every layer of `ls` are nodes of `g`.
pub open spec fn layers_valid(g: Model, ls: Seq<Layer>) -> bool {
    forall|k: int| 0 <= k < ls.len() ==> neurons_valid(g, (#[trigger] ls[k]).neurons@)
}

/// The nodes that the layers of `ls` append, each reading the outputs of the one
/// before, to a graph of `start` nodes.
pub open spec fn mlp_nodes(ls: Seq<Layer>, x: Seq<ValueId>, start: int) -> Seq<Option<Op>>
    decreases ls.len(),
{
    if ls.len() == 0 {
        Seq::empty()
    } else {
        let pre = mlp_nodes(ls.drop_last(), x, start);
        let y = mlp_outputs(ls.drop_last(), x, start);
        pre + layer_nodes(ls.last().neurons@, y, start + pre.len())
    }
}

/// The outputs of the last layer of `ls`; the inputs `x` where there is no layer.
pub open spec fn mlp_outputs(ls: Seq<Layer>, x: Seq<ValueId>, start: int) -> Seq<ValueId>
    decreases ls.len(),
{
    if ls.len() == 0 {
        x
    } else {
        let pre = mlp_nodes(ls.drop_last(), x, start);
        let y = mlp_outputs(ls.drop_last(), x, start);
        layer_outputs(ls.last().neurons@, y, start + pre.len())
    }
}

/// The parameters of the layers of `ls`, layer by layer.
pub open spec fn mlp_params(ls: Seq<Layer>) -> Seq<ValueId>
    decreases ls.len(),
{
    if ls.len() == 0 {
        Seq::empty()
    } else {
        mlp_params(ls.drop_last()) + layer_params(ls.last().neurons@)
    }
}

proof fn lemma_mlp_params_take(ls: Seq<Layer>, i: int)
    requires
        0 <= i <= ls.len(),
    ensures
        mlp_params(ls.take(i)).len() <= mlp_params(ls).len(),
    decreases ls.len(),
{
    if i < ls.len() {
        assert(ls.drop_last().take(i) =~= ls.take(i));
        lemma_mlp_params_take(ls.drop_last(), i);
    } else {
        assert(ls.take(i) =~= ls);
    }
}

/// A multi-layer perceptron: layers applied one after the other.
pub struct MLP {
    pub layers: Vec<Layer>,
}

impl MLP {
    /// Layers of `nouts[0]`, `nouts[1]`, ... neurons with `tanh`, the first over
    /// `nin` inputs and each next one over the outputs of the one before. Their
    /// parameters are fresh leaves of `g`.
    pub fn new(g: &mut Graph, nin: usize, nouts: &[usize]) -> (r: MLP)
        requires
            old(g).wf(),
        ensures
            final(g).wf(),
            final(g)@ == old(g)@ + leaves((final(g)@.len() - old(g)@.len()) as nat),
            r.layers@.len() == nouts@.len(),
            forall|k: int|
                0 <= k < nouts@.len() ==> (#[trigger] r.layers@[k]).neurons@.len() == nouts@[k],
            forall|k: int, m: int|
                0 <= k < nouts@.len() && 0 <= m < nouts@[k] ==> (#[trigger] r.layers@[k].neurons@[m]).weights@.len() == (if k == 0 {
                    nin
                } else {
                    nouts@[k - 1]
                }) && r.layers@[k].neurons@[m].non_lin,
            layers_valid(final(g)@, r.layers@),
    {
        let mut layers: Vec<Layer> = Vec::new();
        let mut n = nin;
        let mut i: usize = 0;
        while i < nouts.len()
            invariant
                i <= nouts@.len(),
                g.wf(),
                g@.len() >= old(g)@.len(),
                g@ =~= old(g)@ + leaves((g@.len() - old(g)@.len()) as nat),
                n == (if i == 0 {
                    nin
                } else {
                    nouts@[i - 1]
                }),
                layers@.len() == i,
                forall|k: int| 0 <= k < i ==> (#[trigger] layers@[k]).neurons@.len() == nouts@[k],
                forall|k: int, m: int|
                    0 <= k < i && 0 <= m < nouts@[k] ==> (#[trigger] layers@[k].neurons@[m]).weights@.len() == (if k == 0 {
                        nin
                    } else {
                        nouts@[k - 1]
                    }) && layers@[k].neurons@[m].non_lin,
                layers_valid(g@, layers@),
            decreases nouts@.len() - i,
        {
            let ghost before = g@;
            let nout = nouts[i];
            let layer = Layer::new(g, n, nout);
            proof {
                assert(g@ =~= old(g)@ + leaves((g@.len() - old(g)@.len()) as nat));
                assert forall|k: int| 0 <= k < i implies neurons_valid(
                    g@,
                    (#[trigger] layers@[k]).neurons@,
                ) by {
                    assert(neurons_valid(before, layers@[k].neurons@));
                    assert forall|m: int| 0 <= m < layers@[k].neurons@.len() implies all_valid(
                        g@,
                        neuron_params(#[trigger] layers@[k].neurons@[m]),
                    ) by {
                        assert(all_valid(before, neuron_params(layers@[k].neurons@[m])));
                    }
                }
            }
            layers.push(layer);
            n = nout;
            i = i + 1;
        }
        MLP { layers }
    }

    /// Builds the layers on the inputs, each on the outputs of the one before, and
    /// returns the outputs of the last.
    pub fn forward(&self, g: &mut Graph, inputs: &[ValueId]) -> (r: Vec<ValueId>)
        requires
            old(g).wf(),
            layers_valid(old(g)@, self.layers@),
            all_valid(old(g)@, inputs@),
        ensures
            final(g).wf(),
            final(g)@ == old(g)@ + mlp_nodes(self.layers@, inputs@, old(g)@.len() as int),
            r@ == mlp_outputs(self.layers@, inputs@, old(g)@.len() as int),
            all_valid(final(g)@, r@),
    {
        let ghost start = old(g)@.len() as int;
        let mut outputs: Vec<ValueId> = Vec::new();
        let mut j: usize = 0;
        while j < inputs.len()
            invariant
                j <= inputs@.len(),
                outputs@ == inputs@.take(j as int),
            decreases inputs@.len() - j,
        {
            outputs.push(inputs[j]);
            j = j + 1;
            assert(outputs@ =~= inputs@.take(j as int));
        }
        assert(outputs@ =~= inputs@);
        assert(self.layers@.take(0) =~= Seq::<Layer>::empty());
        let mut i: usize = 0;
        while i < self.layers.len()
            invariant
                i <= self.layers@.len(),
                g.wf(),
                start == old(g)@.len(),
                g@ =~= old(g)@ + mlp_nodes(self.layers@.take(i as int), inputs@, start),
                outputs@ == mlp_outputs(self.layers@.take(i as int), inputs@, start),
                all_valid(g@, outputs@),
                layers_valid(old(g)@, self.layers@),
                all_valid(old(g)@, inputs@),
            decreases self.layers@.len() - i,
        {
            let ghost before = g@;
            let layer = &self.layers[i];
            proof {
                assert(neurons_valid(old(g)@, layer.neurons@));
                assert forall|m: int| 0 <= m < layer.neurons@.len() implies all_valid(
                    before,
                    neuron_params(#[trigger] layer.neurons@[m]),
                ) by {
                    assert(all_valid(old(g)@, neuron_params(layer.neurons@[m])));
                }
            }
            let next = layer.forward(g, outputs.as_slice());
            proof {
                let t = self.layers@.take(i + 1);
                assert(t.drop_last() =~= self.layers@.take(i as int));
                assert(t.last() == *layer);
            }
            outputs = next;
            i = i + 1;
        }
        assert(self.layers@.take(self.layers@.len() as int) =~= self.layers@);
        outputs
    }

    /// The parameters of every layer, layer by layer.
    pub fn parameters(&self) -> (r: Vec<ValueId>)
        ensures
            r@ == mlp_params(self.layers@),
    {
        let mut r: Vec<ValueId> = Vec::new();
        let mut i: usize = 0;
        while i < self.layers.len()
            invariant
                i <= self.layers@.len(),
                r@ == mlp_params(self.layers@.take(i as int)),
            decreases self.layers@.len() - i,
        {
            let mut p = self.layers[i].parameters();
            r.append(&mut p);
            proof {
                let t = self.layers@.take(i + 1);
                assert(t.drop_last() =~= self.layers@.take(i as int));
            }
            i = i + 1;
        }
        assert(self.layers@.take(self.layers@.len() as int) =~= self.layers@);
        r
    }

    /// Gives the layers, in order, the leading parameters of `parameters`, each as
    /// many as it has. The shape stays as it is.
    pub fn update_parameters(&mut self, parameters: Vec<ValueId>)
        requires
            mlp_params(old(self).layers@).len() <= parameters@.len(),
        ensures
            final(self).layers@.len() == old(self).layers@.len(),
            forall|k: int|
                0 <= k < old(self).layers@.len() ==> (#[trigger] final(self).layers@[k]).neurons@.len()
                    == old(self).layers@[k].neurons@.len(),
            forall|k: int, m: int|
                0 <= k < old(self).layers@.len() && 0 <= m < old(self).layers@[k].neurons@.len()
                    ==> same_shape(
                    #[trigger] old(self).layers@[k].neurons@[m],
                    final(self).layers@[k].neurons@[m],
                ),
            mlp_params(final(self).layers@) == parameters@.take(
                mlp_params(old(self).layers@).len() as int,
            ),
    {
        let total = parameters.len();
        let mut layers: Vec<Layer> = Vec::new();
        let mut pos: usize = 0;
        let mut i: usize = 0;
        assert(parameters@.take(0) =~= Seq::<ValueId>::empty());
        while i < self.layers.len()
            invariant
                i <= self.layers@.len(),
                mlp_params(self.layers@).len() <= parameters@.len(),
                total == parameters@.len(),
                pos == mlp_params(self.layers@.take(i as int)).len(),
                layers@.len() == i,
                forall|k: int|
                    0 <= k < i ==> (#[trigger] layers@[k]).neurons@.len()
                        == self.layers@[k].neurons@.len(),
                forall|k: int, m: int|
                    0 <= k < i && 0 <= m < self.layers@[k].neurons@.len() ==> same_shape(
                        #[trigger] self.layers@[k].neurons@[m],
                        layers@[k].neurons@[m],
                    ),
                mlp_params(layers@) == parameters@.take(pos as int),
            decreases self.layers@.len() - i,
        {
            proof {
                let t = self.layers@.take(i + 1);
                assert(t.drop_last() =~= self.layers@.take(i as int));
                lemma_mlp_params_take(self.layers@, i + 1);
            }
            let count = self.layers[i].parameters().len();
            proof {
                let t = self.layers@.take(i + 1);
                assert(t.last() == self.layers@[i as int]);
                assert(mlp_params(t).len() == pos + count);
            }
            let layer = self.layers[i].updated(&parameters, pos);
            let ghost prev = layers@;
            layers.push(layer);
            proof {
                assert(layers@.drop_last() =~= prev);
                assert(mlp_params(layers@) =~= parameters@.take(pos + count));
            }
            pos = pos + count;
            i = i + 1;
        }
        assert(self.layers@.take(self.layers@.len() as int) =~= self.layers@);
        self.layers = layers;
    }
}

} // verus!

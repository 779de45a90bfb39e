use std::collections::HashMap;

use autograd::nn::{Layer, Neuron, MLP};
use autograd::{BinaryOp, Graph, Op, Rule, Step, UnaryOp, ValueId};
use rand::Rng;

/// Forward values of every node, given the values of the leaves.
fn values(g: &Graph, leaves: &HashMap<usize, f64>) -> Vec<f64> {
    let mut v: Vec<f64> = Vec::new();
    for i in 0..g.len() {
        let x = match g.op(ValueId(i)) {
            None => leaves[&i],
            Some(Op::Binary(a, b, BinaryOp::Add)) => v[a.0] + v[b.0],
            Some(Op::Binary(a, b, BinaryOp::Mul)) => v[a.0] * v[b.0],
            Some(Op::Binary(a, b, BinaryOp::Pow)) => v[a.0].powf(v[b.0]),
            Some(Op::Binary(_, _, _)) => unreachable!(),
            Some(Op::Unary(a, UnaryOp::Tanh)) => v[a.0].tanh(),
            Some(Op::Unary(a, UnaryOp::Exp)) => v[a.0].exp(),
            Some(Op::Unary(a, UnaryOp::Relu)) => v[a.0].max(0.0),
        };
        v.push(x);
    }
    v
}

/// Applies a backward schedule from `root`, seeded with gradient 1.
fn gradients(root: ValueId, steps: &[Step], v: &[f64]) -> HashMap<ValueId, f64> {
    let mut grad: HashMap<ValueId, f64> = HashMap::new();
    grad.insert(root, 1.0);
    for s in steps {
        let g = *grad.get(&s.node).unwrap_or(&0.0);
        let local = match s.rule {
            Rule::Identity => 1.0,
            Rule::ScaledBy(o) => v[o.0],
            Rule::PowerBase(e) => v[e.0] * v[s.operand.0].powf(v[e.0] - 1.0),
            Rule::Tanh => 1.0 - v[s.node.0] * v[s.node.0],
            Rule::Exp => v[s.node.0],
            Rule::Relu => {
                if v[s.operand.0] > 0.0 {
                    1.0
                } else {
                    0.0
                }
            }
        };
        *grad.entry(s.operand).or_insert(0.0) += local * g;
    }
    grad
}

fn grad_of(grad: &HashMap<ValueId, f64>, n: ValueId) -> f64 {
    *grad.get(&n).unwrap_or(&0.0)
}

#[test]
fn test_backward() {
    let mut g = Graph::new();
    let a = g.new_with_label("a".to_string());
    let b = g.add(a, a);
    let steps = g.backward(b);
    let leaves = HashMap::from([(a.0, 3.0)]);
    let v = values(&g, &leaves);
    let grad = gradients(b, &steps, &v);
    assert_eq!(grad_of(&grad, a), 2.0);
}

#[test]
fn test_tanh() {
    let mut g = Graph::new();
    let x1 = g.new_with_label("x1".to_string());
    let x2 = g.new_with_label("x2".to_string());
    let w1 = g.new_with_label("w1".to_string());
    let w2 = g.new_with_label("w2".to_string());
    let b = g.new_with_label("b".to_string());
    let x1w1 = g.mul(x1, w1);
    g.set_label(x1w1, "x1w1".to_string());
    let x2w2 = g.mul(x2, w2);
    g.set_label(x2w2, "x2w2".to_string());
    let x1w1x2w2 = g.add(x1w1, x2w2);
    g.set_label(x1w1x2w2, "x1w1x2w2".to_string());
    let n = g.add(x1w1x2w2, b);
    g.set_label(n, "n".to_string());
    let o = g.tanh(n);
    g.set_label(o, "o".to_string());
    assert_eq!(g.label(o), "o");
    assert_eq!(g.label(x1w1), "x1w1");

    let leaves = HashMap::from([
        (x1.0, 2.0),
        (x2.0, 0.0),
        (w1.0, -3.0),
        (w2.0, 1.0),
        (b.0, 6.8813735870195432),
    ]);
    let v = values(&g, &leaves);
    assert!((v[o.0] - 0.7071).abs() < 1e-4);
    let grad = gradients(o, &g.backward(o), &v);
    assert!((grad_of(&grad, x1) - -1.5).abs() < 1e-6);
    assert!((grad_of(&grad, w1) - 1.0).abs() < 1e-6);
    assert!((grad_of(&grad, x2) - 0.5).abs() < 1e-6);
    assert!((grad_of(&grad, w2) - 0.0).abs() < 1e-6);
    assert!((grad_of(&grad, n) - 0.5).abs() < 1e-6);

    // the same tanh, written as (e^(2n) - 1) / (e^(2n) + 1) from primitives
    let two = g.constant();
    let one = g.constant();
    let minus_one = g.constant();
    let n2 = g.mul(n, two);
    let e = g.exp(n2);
    let neg_one = g.mul(one, minus_one);
    let top = g.add(e, neg_one);
    let bottom = g.add(e, one);
    let inv = g.pow(bottom, minus_one);
    let o2 = g.mul(top, inv);
    let mut leaves = leaves;
    leaves.insert(two.0, 2.0);
    leaves.insert(one.0, 1.0);
    leaves.insert(minus_one.0, -1.0);
    let v = values(&g, &leaves);
    assert!((v[o2.0] - v[o.0]).abs() < 1e-12);
    let grad = gradients(o2, &g.backward(o2), &v);
    assert!((grad_of(&grad, x1) - -1.5).abs() < 1e-6);
    assert!((grad_of(&grad, w1) - 1.0).abs() < 1e-6);
}

#[test]
fn add_same_node_twice_schedules_two_identity_steps() {
    let mut g = Graph::new();
    let a = g.constant();
    let c = g.add(a, a);
    let steps = g.backward(c);
    let s = Step { node: c, operand: a, rule: Rule::Identity };
    assert_eq!(steps, vec![s, s]);
}

#[test]
fn product_rule_on_leaves() {
    let mut g = Graph::new();
    let a = g.constant();
    let b = g.constant();
    let c = g.mul(a, b);
    let steps = g.backward(c);
    assert_eq!(
        steps,
        vec![
            Step { node: c, operand: a, rule: Rule::ScaledBy(b) },
            Step { node: c, operand: b, rule: Rule::ScaledBy(a) },
        ]
    );
    let v = values(&g, &HashMap::from([(a.0, 3.0), (b.0, -4.0)]));
    let grad = gradients(c, &steps, &v);
    assert_eq!(grad_of(&grad, a), -4.0);
    assert_eq!(grad_of(&grad, b), 3.0);
}

#[test]
fn tanh_at_zero_has_unit_gradient() {
    let mut g = Graph::new();
    let a = g.constant();
    let c = g.tanh(a);
    let steps = g.backward(c);
    assert_eq!(steps, vec![Step { node: c, operand: a, rule: Rule::Tanh }]);
    let v = values(&g, &HashMap::from([(a.0, 0.0)]));
    let grad = gradients(c, &steps, &v);
    assert_eq!(grad_of(&grad, a), 1.0);
}

#[test]
fn rederiving_gives_new_node_with_same_provenance() {
    let mut g = Graph::new();
    let a = g.constant();
    let b = g.constant();
    let c1 = g.mul(a, b);
    let c2 = g.mul(a, b);
    assert_ne!(c1, c2);
    assert_eq!(g.op(c1), g.op(c2));
    let v = values(&g, &HashMap::from([(a.0, 1.5), (b.0, 2.0)]));
    assert_eq!(v[c1.0], v[c2.0]);
}

#[test]
fn topo_order_of_diamond() {
    let mut g = Graph::new();
    let a = g.constant();
    let b = g.exp(a);
    let c = g.relu(a);
    let d = g.mul(b, c);
    let order = g.topo_order(d);
    assert_eq!(order, vec![a, b, c, d]);
    let steps = g.backward(d);
    assert_eq!(
        steps,
        vec![
            Step { node: d, operand: b, rule: Rule::ScaledBy(c) },
            Step { node: d, operand: c, rule: Rule::ScaledBy(b) },
            Step { node: c, operand: a, rule: Rule::Relu },
            Step { node: b, operand: a, rule: Rule::Exp },
        ]
    );
}

#[test]
fn unused_leaf_is_absent() {
    let mut g = Graph::new();
    let a = g.constant();
    let unused = g.constant();
    let c = g.tanh(a);
    let order = g.topo_order(c);
    assert_eq!(order, vec![a, c]);
    assert!(!order.contains(&unused));
    let steps = g.backward(c);
    assert!(steps.iter().all(|s| s.operand != unused && s.node != unused));
    let v = values(&g, &HashMap::from([(a.0, 0.3), (unused.0, 5.0)]));
    let grad = gradients(c, &steps, &v);
    assert_eq!(grad_of(&grad, unused), 0.0);
    assert!(!grad.contains_key(&unused));
}

#[test]
fn pow_feeds_only_the_base() {
    let mut g = Graph::new();
    let a = g.constant();
    let e = g.constant();
    let p = g.pow(a, e);
    let steps = g.backward(p);
    assert_eq!(steps, vec![Step { node: p, operand: a, rule: Rule::PowerBase(e) }]);
    let v = values(&g, &HashMap::from([(a.0, 3.0), (e.0, 2.0)]));
    assert_eq!(v[p.0], 9.0);
    let grad = gradients(p, &steps, &v);
    assert_eq!(grad_of(&grad, a), 6.0);
    assert_eq!(grad_of(&grad, e), 0.0);
}

#[test]
fn square_is_product_with_itself() {
    let mut g = Graph::new();
    let a = g.constant();
    let s = g.sqrt(a);
    assert_eq!(g.op(s), Some(Op::Binary(a, a, BinaryOp::Mul)));
    let v = values(&g, &HashMap::from([(a.0, 3.0)]));
    let grad = gradients(s, &g.backward(s), &v);
    assert_eq!(grad_of(&grad, a), 6.0);
}

#[test]
fn builders_record_provenance() {
    let mut g = Graph::new();
    let a = g.constant();
    assert_eq!(a, ValueId::new(0));
    assert_eq!(g.op(a), None);
    assert_eq!(g.label(a), "");
    let e = g.exp(a);
    assert_eq!(g.op(e), Some(Op::Unary(a, UnaryOp::Exp)));
    assert!(!g.op(e).unwrap().is_binary());
    let s = g.add(a, e);
    assert!(g.op(s).unwrap().is_binary());
    assert_eq!(g.len(), 3);
}

/// Random weights in [-1, 1] and zero biases for every neuron parameter.
fn init_params(leaves: &mut HashMap<usize, f64>, neurons: &[&Neuron]) {
    let mut rng = rand::thread_rng();
    for n in neurons {
        for w in &n.weights {
            leaves.insert(w.0, rng.gen_range(-1.0..=1.0));
        }
        leaves.insert(n.bias.0, 0.0);
    }
}

#[test]
fn test_layer() {
    let mut g = Graph::new();
    let mut leaves = HashMap::new();
    let x = [g.constant(), g.constant()];
    leaves.insert(x[0].0, 2.0);
    leaves.insert(x[1].0, 3.0);
    let n = Layer::new(&mut g, 2, 3);
    init_params(&mut leaves, &n.neurons.iter().collect::<Vec<_>>());
    let outputs = n.forward(&mut g, &x);
    assert_eq!(outputs.len(), 3);
    let v = values(&g, &leaves);
    for o in outputs {
        println!("data: {}", v[o.0]);
        assert!(v[o.0].abs() <= 1.0);
    }
}

fn leaf(g: &mut Graph, leaves: &mut HashMap<usize, f64>, x: f64) -> ValueId {
    let id = g.constant();
    leaves.insert(id.0, x);
    id
}

#[test]
fn test_mlp() {
    let mut g = Graph::new();
    let mut leaves = HashMap::new();
    let x = [
        leaf(&mut g, &mut leaves, 2.0),
        leaf(&mut g, &mut leaves, 3.0),
        leaf(&mut g, &mut leaves, -1.0),
    ];
    let mut n = MLP::new(&mut g, 3, &[4, 4, 1]);
    let all: Vec<&Neuron> = n.layers.iter().flat_map(|l| l.neurons.iter()).collect();
    init_params(&mut leaves, &all);
    let outputs = n.forward(&mut g, &x);
    assert_eq!(outputs.len(), 1);
    let v = values(&g, &leaves);
    println!("data: {}", v[outputs[0].0]);
    for o in n.parameters() {
        println!("parameters: {}", v[o.0]);
    }
    assert_eq!(n.parameters().len(), 41);

    let rows = [[2.0, 3.0, -1.0], [3.0, -1.0, 0.5], [0.5, 1.0, 1.0], [1.0, 1.0, -1.0]];
    let xs: Vec<Vec<ValueId>> = rows
        .iter()
        .map(|r| r.iter().map(|&a| leaf(&mut g, &mut leaves, a)).collect())
        .collect();
    let ys: Vec<ValueId> = [1.0, -1.0, -1.0, 1.0].iter().map(|&a| leaf(&mut g, &mut leaves, a)).collect();
    let minus_one = leaf(&mut g, &mut leaves, -1.0);

    for k in 0..20 {
        let ypred: Vec<Vec<ValueId>> = xs.iter().map(|x| n.forward(&mut g, x)).collect();
        let mut loss = leaf(&mut g, &mut leaves, 0.0);
        for (yp, y) in ypred.iter().zip(ys.iter()) {
            let neg_y = g.mul(*y, minus_one);
            let diff = g.add(yp[0], neg_y);
            let sq = g.sqrt(diff);
            loss = g.add(loss, sq);
        }
        let v = values(&g, &leaves);
        let grad = gradients(loss, &g.backward(loss), &v);

        let mut parameters = n.parameters();
        for p in parameters.iter_mut() {
            let shifted = -0.05 * grad_of(&grad, *p) + v[p.0];
            *p = leaf(&mut g, &mut leaves, shifted);
        }
        n.update_parameters(parameters);
        assert_eq!(n.parameters().len(), 41);

        println!("{k}, loss: {}", v[loss.0]);
        assert!(v[loss.0].is_finite());
    }
}

#[test]
fn neuron_forward_builds_weighted_sum() {
    let mut g = Graph::new();
    let x = [g.constant(), g.constant()];
    let n = Neuron::new(&mut g, 2, false);
    assert_eq!(n.weights, vec![ValueId(2), ValueId(3)]);
    assert_eq!(n.bias, ValueId(4));
    assert_eq!(n.parameters(), vec![ValueId(2), ValueId(3), ValueId(4)]);
    let out = n.forward(&mut g, &x);
    assert_eq!(g.op(ValueId(5)), Some(Op::Binary(ValueId(2), x[0], BinaryOp::Mul)));
    assert_eq!(g.op(ValueId(6)), Some(Op::Binary(ValueId(4), ValueId(5), BinaryOp::Add)));
    assert_eq!(g.op(ValueId(7)), Some(Op::Binary(ValueId(3), x[1], BinaryOp::Mul)));
    assert_eq!(g.op(ValueId(8)), Some(Op::Binary(ValueId(6), ValueId(7), BinaryOp::Add)));
    assert_eq!(out, ValueId(8));
    let leaves = HashMap::from([(0, 2.0), (1, 3.0), (2, 0.5), (3, -1.0), (4, 0.25)]);
    let v = values(&g, &leaves);
    assert_eq!(v[out.0], 2.0 * 0.5 + 3.0 * -1.0 + 0.25);
}

#[test]
fn neuron_with_tanh_and_fewer_inputs() {
    let mut g = Graph::new();
    let x = [g.constant()];
    let n = Neuron::new(&mut g, 3, true);
    let out = n.forward(&mut g, &x);
    assert_eq!(out, ValueId(7));
    assert_eq!(g.op(out), Some(Op::Unary(ValueId(6), UnaryOp::Tanh)));
    assert_eq!(g.len(), 8);
}

#[test]
fn layer_update_takes_leading_parameters() {
    let mut g = Graph::new();
    let mut layer = Layer::new(&mut g, 1, 2);
    assert_eq!(layer.parameters(), vec![ValueId(0), ValueId(1), ValueId(2), ValueId(3)]);
    let fresh: Vec<ValueId> = (10..15).map(ValueId).collect();
    layer.update(fresh);
    assert_eq!(layer.parameters(), vec![ValueId(10), ValueId(11), ValueId(12), ValueId(13)]);
    assert_eq!(layer.neurons[1].weights, vec![ValueId(12)]);
    assert!(layer.neurons.iter().all(|n| n.non_lin));
}

#[test]
fn mlp_update_keeps_shape() {
    let mut g = Graph::new();
    let mut n = MLP::new(&mut g, 2, &[2, 1]);
    assert_eq!(n.layers[0].neurons[0].weights.len(), 2);
    assert_eq!(n.layers[1].neurons[0].weights.len(), 2);
    assert_eq!(n.parameters(), (0..9).map(ValueId).collect::<Vec<_>>());
    let fresh: Vec<ValueId> = (100..109).map(ValueId).collect();
    n.update_parameters(fresh.clone());
    assert_eq!(n.parameters(), fresh);
    assert_eq!(n.layers[1].neurons[0].bias, ValueId(108));
}

#[test]
fn neuron_update_replaces_parameters() {
    let mut g = Graph::new();
    let mut n = Neuron::new(&mut g, 1, true);
    n.update(vec![ValueId(7)], ValueId(8));
    assert_eq!(n.parameters(), vec![ValueId(7), ValueId(8)]);
    assert!(n.non_lin);
}

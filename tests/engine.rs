use rustygrad::{layer_shapes, Graph, LayerShape, Op, Rule, Step};

/// Forward values and recorded (base, exponent) pairs kept beside a graph.
struct Values {
    data: Vec<f64>,
    power: Vec<Option<(f64, f64)>>,
}

impl Values {
    fn new() -> Values {
        Values { data: Vec::new(), power: Vec::new() }
    }

    fn leaf(&mut self, g: &mut Graph, x: f64) -> usize {
        self.data.push(x);
        self.power.push(None);
        g.leaf()
    }

    fn add(&mut self, g: &mut Graph, a: usize, b: usize) -> usize {
        self.data.push(self.data[a] + self.data[b]);
        self.power.push(None);
        g.add(a, b)
    }

    fn mul(&mut self, g: &mut Graph, a: usize, b: usize) -> usize {
        self.data.push(self.data[a] * self.data[b]);
        self.power.push(None);
        g.mul(a, b)
    }

    fn pow(&mut self, g: &mut Graph, a: usize, e: f64) -> usize {
        self.data.push(self.data[a].powf(e));
        self.power.push(Some((self.data[a], e)));
        g.pow(a)
    }

    fn relu(&mut self, g: &mut Graph, a: usize) -> usize {
        self.data.push(self.data[a].max(0.0));
        self.power.push(None);
        g.relu(a)
    }

    /// Computes forward values of the sums, products and rectifications
    /// that the graph gained from index `from` on.
    fn fill_from(&mut self, g: &Graph, from: usize) {
        for i in from..g.len() {
            let node = g.node(i);
            let d = match node.op {
                Op::Add => self.data[node.operands[0]] + self.data[node.operands[1]],
                Op::Mul => self.data[node.operands[0]] * self.data[node.operands[1]],
                Op::Relu => self.data[node.operands[0]].max(0.0),
                Op::Leaf | Op::Pow => panic!("not produced by a neuron"),
            };
            self.data.push(d);
            self.power.push(None);
        }
    }

    fn sub(&mut self, g: &mut Graph, a: usize, b: usize) -> usize {
        let m = self.leaf(g, -1.0);
        let nb = self.mul(g, b, m);
        self.add(g, a, nb)
    }

    /// Runs the library's schedule from `root` and returns every gradient.
    fn backward(&self, g: &Graph, root: usize) -> Vec<f64> {
        let mut grad = vec![0.0; self.data.len()];
        let order = g.topo_order(root);
        grad[root] = 1.0;
        for s in g.propagation_steps(&order) {
            let c = match s.rule {
                Rule::Pass => grad[s.from],
                Rule::ScaleBy(j) => grad[s.from] * self.data[j],
                Rule::Power => {
                    let (b, e) = self.power[s.from].unwrap();
                    e * b.powf(e - 1.0) * grad[s.from]
                }
                Rule::Gate => {
                    if self.data[s.from] > 0.0 {
                        grad[s.from]
                    } else {
                        0.0
                    }
                }
            };
            grad[s.to] += c;
        }
        grad
    }
}

#[test]
fn leaf_backward_touches_only_itself() {
    let mut g = Graph::new();
    let mut vals = Values::new();
    let other = vals.leaf(&mut g, 4.0);
    let x = vals.leaf(&mut g, 2.5);
    let _y = vals.add(&mut g, other, x);
    assert_eq!(g.topo_order(x), vec![x]);
    assert!(g.propagation_steps(&vec![x]).is_empty());
    let grad = vals.backward(&g, x);
    assert_eq!(grad, vec![0.0, 1.0, 0.0]);
}

#[test]
fn square_accumulates_both_paths() {
    let mut g = Graph::new();
    let mut vals = Values::new();
    let a = vals.leaf(&mut g, 3.0);
    let b = vals.mul(&mut g, a, a);
    let order = g.topo_order(b);
    assert_eq!(order, vec![a, b]);
    let steps = g.propagation_steps(&order);
    assert_eq!(
        steps,
        vec![
            Step { from: b, to: a, rule: Rule::ScaleBy(a) },
            Step { from: b, to: a, rule: Rule::ScaleBy(a) },
        ]
    );
    let grad = vals.backward(&g, b);
    assert_eq!(grad[a], 6.0);
    assert_eq!(grad[b], 1.0);
}

#[test]
fn shared_sibling_sum_accumulates() {
    let mut g = Graph::new();
    let mut vals = Values::new();
    let a = vals.leaf(&mut g, -2.0);
    let p = vals.mul(&mut g, a, a);
    let q = vals.add(&mut g, a, a);
    let r = vals.add(&mut g, p, q);
    let order = g.topo_order(r);
    assert_eq!(order, vec![a, p, q, r]);
    let grad = vals.backward(&g, r);
    // d(a^2 + 2a)/da = 2a + 2
    assert_eq!(grad[a], -2.0);
}

#[test]
fn closed_form_relu_of_square() {
    let mut g = Graph::new();
    let mut vals = Values::new();
    let x = vals.leaf(&mut g, 0.0);
    let c = vals.leaf(&mut g, -3.0);
    let m = vals.mul(&mut g, x, c);
    let three = vals.leaf(&mut g, 3.0);
    let s = vals.sub(&mut g, m, three);
    let p = vals.pow(&mut g, s, 2.0);
    let y = vals.relu(&mut g, p);
    assert_eq!(vals.data[y], 9.0);
    let grad = vals.backward(&g, y);
    assert_eq!(grad[x], 18.0);
    assert_eq!(grad[y], 1.0);
}

#[test]
fn relu_at_zero_passes_nothing() {
    let mut g = Graph::new();
    let mut vals = Values::new();
    let a = vals.leaf(&mut g, 0.0);
    let r = vals.relu(&mut g, a);
    let order = g.topo_order(r);
    assert_eq!(g.propagation_steps(&order), vec![Step { from: r, to: a, rule: Rule::Gate }]);
    let grad = vals.backward(&g, r);
    assert_eq!(grad[a], 0.0);
}

#[test]
fn relu_above_zero_passes_gradient() {
    let mut g = Graph::new();
    let mut vals = Values::new();
    let a = vals.leaf(&mut g, 0.5);
    let r = vals.relu(&mut g, a);
    let k = vals.leaf(&mut g, 7.0);
    let y = vals.mul(&mut g, r, k);
    let grad = vals.backward(&g, y);
    assert_eq!(grad[a], 7.0);
}

#[test]
fn power_uses_recorded_base() {
    let mut g = Graph::new();
    let mut vals = Values::new();
    let a = vals.leaf(&mut g, 3.0);
    let p = vals.pow(&mut g, a, 2.0);
    // The base changes after the power node was made.
    vals.data[a] = 10.0;
    let order = g.topo_order(p);
    assert_eq!(g.propagation_steps(&order), vec![Step { from: p, to: a, rule: Rule::Power }]);
    let grad = vals.backward(&g, p);
    assert_eq!(grad[a], 6.0);
}

#[test]
fn division_by_zero_propagates_infinity() {
    let mut g = Graph::new();
    let mut vals = Values::new();
    let a = vals.leaf(&mut g, 1.0);
    let b = vals.leaf(&mut g, 0.0);
    let inv = vals.pow(&mut g, b, -1.0);
    let q = vals.mul(&mut g, a, inv);
    assert!(vals.data[q].is_infinite());
    let grad = vals.backward(&g, q);
    assert!(grad[a].is_infinite());
}

#[test]
fn equal_values_stay_distinct_nodes() {
    let mut g = Graph::new();
    let mut vals = Values::new();
    let a = vals.leaf(&mut g, 1.0);
    let b = vals.leaf(&mut g, 1.0);
    let s = vals.add(&mut g, a, b);
    assert_eq!(g.topo_order(s), vec![a, b, s]);
    let grad = vals.backward(&g, s);
    assert_eq!(grad, vec![1.0, 1.0, 1.0]);
}

#[test]
fn root_seed_overwrites_previous_gradient() {
    let mut g = Graph::new();
    let mut vals = Values::new();
    let a = vals.leaf(&mut g, 2.0);
    let b = vals.leaf(&mut g, 5.0);
    let s = vals.add(&mut g, a, b);
    let order = g.topo_order(s);
    let steps = g.propagation_steps(&order);
    assert!(steps.iter().all(|st| st.to != s));
    assert_eq!(
        steps,
        vec![Step { from: s, to: a, rule: Rule::Pass }, Step { from: s, to: b, rule: Rule::Pass }]
    );
}

#[test]
fn contributions_arrive_before_they_are_passed_on() {
    let mut g = Graph::new();
    let mut vals = Values::new();
    let a = vals.leaf(&mut g, 1.5);
    let b = vals.leaf(&mut g, -0.5);
    let e = vals.add(&mut g, a, b);
    let f = vals.mul(&mut g, e, e);
    let h = vals.relu(&mut g, e);
    let r = vals.add(&mut g, f, h);
    let order = g.topo_order(r);
    assert_eq!(order.len(), 6);
    assert_eq!(order.iter().filter(|&&n| n == e).count(), 1);
    assert_eq!(*order.last().unwrap(), r);
    let steps = g.propagation_steps(&order);
    for (i, si) in steps.iter().enumerate() {
        for (j, sj) in steps.iter().enumerate() {
            if si.to == sj.from {
                assert!(i < j);
            }
        }
    }
    let grad = vals.backward(&g, r);
    // r = e^2 + relu(e), e = 1.0 > 0: dr/de = 2e + 1 = 3
    assert_eq!(grad[e], 3.0);
    assert_eq!(grad[a], 3.0);
    assert_eq!(grad[b], 3.0);
}

#[test]
fn unreachable_nodes_are_left_out() {
    let mut g = Graph::new();
    let mut vals = Values::new();
    let a = vals.leaf(&mut g, 1.0);
    let b = vals.leaf(&mut g, 2.0);
    let c = vals.mul(&mut g, a, b);
    let d = vals.relu(&mut g, b);
    assert_eq!(g.topo_order(d), vec![b, d]);
    let grad = vals.backward(&g, d);
    assert_eq!(grad[a], 0.0);
    assert_eq!(grad[c], 0.0);
    assert_eq!(grad[b], 1.0);
}

#[test]
fn nodes_record_operation_and_operands() {
    let mut g = Graph::new();
    assert_eq!(g.len(), 0);
    let a = g.leaf();
    let b = g.leaf();
    let s = g.add(a, b);
    let m = g.mul(s, a);
    let p = g.pow(m);
    let r = g.relu(p);
    assert_eq!((a, b, s, m, p, r), (0, 1, 2, 3, 4, 5));
    assert_eq!(g.len(), 6);
    assert_eq!(g.node(a).op, Op::Leaf);
    assert!(g.node(a).operands.is_empty());
    assert_eq!(g.node(s).op, Op::Add);
    assert_eq!(g.node(s).operands, vec![a, b]);
    assert_eq!(g.node(m).op, Op::Mul);
    assert_eq!(g.node(m).operands, vec![s, a]);
    assert_eq!(g.node(p).op, Op::Pow);
    assert_eq!(g.node(p).operands, vec![m]);
    assert_eq!(g.node(r).op, Op::Relu);
    assert_eq!(g.node(r).operands, vec![p]);
}

#[test]
fn layer_shapes_chain_widths() {
    let shapes = layer_shapes(2, &vec![6, 6, 1]);
    assert_eq!(
        shapes,
        vec![
            LayerShape { n_inputs: 2, n_outputs: 6, activation: true },
            LayerShape { n_inputs: 6, n_outputs: 6, activation: true },
            LayerShape { n_inputs: 6, n_outputs: 1, activation: false },
        ]
    );
    assert!(layer_shapes(3, &vec![]).is_empty());
    assert_eq!(
        layer_shapes(4, &vec![2]),
        vec![LayerShape { n_inputs: 4, n_outputs: 2, activation: false }]
    );
}

#[test]
fn neuron_builds_weighted_sum() {
    let mut g = Graph::new();
    let mut vals = Values::new();
    let w0 = vals.leaf(&mut g, 0.5);
    let w1 = vals.leaf(&mut g, -2.0);
    let x0 = vals.leaf(&mut g, 4.0);
    let x1 = vals.leaf(&mut g, 1.0);
    let zero = vals.leaf(&mut g, 0.0);
    let out = g.neuron(zero, &vec![w0, w1], &vec![x0, x1], false);
    assert_eq!(g.len(), 9);
    assert_eq!(out, 8);
    assert_eq!(g.node(5).op, Op::Mul);
    assert_eq!(g.node(5).operands, vec![w0, x0]);
    assert_eq!(g.node(6).op, Op::Add);
    assert_eq!(g.node(6).operands, vec![zero, 5]);
    assert_eq!(g.node(7).operands, vec![w1, x1]);
    assert_eq!(g.node(8).operands, vec![6, 7]);
    let act = g.neuron(zero, &vec![w0], &vec![x0], true);
    assert_eq!(act, 11);
    assert_eq!(g.node(act).op, Op::Relu);
    assert_eq!(g.node(act).operands, vec![10]);
    let bias_only = g.neuron(zero, &vec![], &vec![], false);
    assert_eq!(bias_only, zero);
}

/// One pass of mean squared error over the XOR points; returns the loss and
/// the gradient of each parameter.
fn xor_loss(params: &[f64]) -> (f64, Vec<f64>) {
    let xs = [[1.0, 1.0], [1.0, -1.0], [-1.0, 1.0], [-1.0, -1.0]];
    let ys = [-1.0, 1.0, 1.0, -1.0];
    let shapes = layer_shapes(2, &vec![6, 6, 1]);
    let mut g = Graph::new();
    let mut vals = Values::new();
    let leaves: Vec<usize> = params.iter().map(|&p| vals.leaf(&mut g, p)).collect();
    let mut loss = vals.leaf(&mut g, 0.0);
    for (x, y) in xs.iter().zip(ys) {
        let mut input: Vec<usize> = x.iter().map(|&xi| vals.leaf(&mut g, xi)).collect();
        let mut next_param = 0;
        for shape in &shapes {
            let mut out = Vec::new();
            for _ in 0..shape.n_outputs {
                let w = leaves[next_param..next_param + shape.n_inputs].to_vec();
                next_param += shape.n_inputs;
                let zero = vals.leaf(&mut g, 0.0);
                let from = g.len();
                let n = g.neuron(zero, &w, &input, shape.activation);
                vals.fill_from(&g, from);
                out.push(n);
            }
            input = out;
        }
        assert_eq!(next_param, params.len());
        let target = vals.leaf(&mut g, y);
        let diff = vals.sub(&mut g, input[0], target);
        let sq = vals.pow(&mut g, diff, 2.0);
        loss = vals.add(&mut g, loss, sq);
    }
    let four = vals.leaf(&mut g, 4.0);
    let inv = vals.pow(&mut g, four, -1.0);
    let mean = vals.mul(&mut g, loss, inv);
    let grad = vals.backward(&g, mean);
    (vals.data[mean], leaves.iter().map(|&l| grad[l]).collect())
}

#[test]
fn xor_training_loss_does_not_rise() {
    let n_params = 2 * 6 + 6 * 6 + 6;
    let mut params: Vec<f64> = (0..n_params)
        .map(|i| {
            let t = ((i * 37 + 11) % 101) as f64 / 101.0;
            t * 2.0 - 1.0
        })
        .collect();
    let mut losses = Vec::new();
    for _ in 0..10 {
        let (loss, grads) = xor_loss(&params);
        losses.push(loss);
        for (p, gr) in params.iter_mut().zip(grads) {
            *p -= 0.01 * gr;
        }
    }
    assert!(losses[0] > 0.0);
    for pair in losses.windows(2) {
        assert!(pair[1] <= pair[0], "{:?}", losses);
    }
}

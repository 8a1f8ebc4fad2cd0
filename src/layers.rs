use vstd::prelude::*;

use crate::graph::{Graph, NodeView, Op};

verus! {

/// The shape of one dense layer of a multi-layer perceptron.
#[derive(Clone, Copy, Debug, PartialEq, Eq, Structural)]
pub struct LayerShape {
    /// Width of the layer's input.
    pub n_inputs: usize,
    /// Number of neurons, hence width of the layer's output.
    pub n_outputs: usize,
    /// Whether the neurons apply a rectified linear unit to their sum.
    pub activation: bool,
}

/// The shape of layer `i` of a perceptron with `n_inputs` inputs and layer
/// widths `widths`: it reads what the layer before it produces, and every
/// layer but the last is activated.
pub open spec fn layer_shape(n_inputs: usize, widths: Seq<usize>, i: int) -> LayerShape {
    LayerShape {
        n_inputs: if i == 0 {
            n_inputs
        } else {
            widths[i - 1]
        },
        n_outputs: widths[i],
        activation: i != widths.len() - 1,
    }
}

/// The shapes of the layers of a perceptron with `n_inputs` inputs and layer
/// widths `widths`, first layer first.
pub fn layer_shapes(n_inputs: usize, widths: &Vec<usize>) -> (r: Vec<LayerShape>)
    ensures
        r@.len() == widths@.len(),
        forall|i: int| 0 <= i < r@.len() ==> #[trigger] r@[i] == layer_shape(n_inputs, widths@, i),
{
    let mut r: Vec<LayerShape> = Vec::new();
    let mut i: usize = 0;
    while i < widths.len()
        invariant
            i <= widths@.len(),
            r@.len() == i,
            forall|j: int| 0 <= j < i ==> #[trigger] r@[j] == layer_shape(n_inputs, widths@, j),
        decreases widths@.len() - i,
    {
        let nin = if i == 0 {
            n_inputs
        } else {
            widths[i - 1]
        };
        r.push(LayerShape { n_inputs: nin, n_outputs: widths[i], activation: i != widths.len() - 1 });
        i += 1;
    }
    r
}

/// Index of the running sum after `m` terms of a neuron whose nodes start at
/// index `start` and whose sum starts from the node `zero`.
pub open spec fn partial_sum(start: nat, zero: usize, m: nat) -> usize {
    if m == 0 {
        zero
    } else {
        (start + 2 * m - 1) as usize
    }
}

/// The nodes that a weighted sum of `m` terms appends at index `start`: for
/// each term the product `w[j] * x[j]`, then its sum with the running sum.
pub open spec fn sum_nodes(
    start: nat,
    zero: usize,
    w: Seq<usize>,
    x: Seq<usize>,
    m: nat,
) -> Seq<NodeView>
    decreases m,
{
    if m == 0 {
        seq![]
    } else {
        let j = (m - 1) as nat;
        sum_nodes(start, zero, w, x, j) + seq![
            NodeView { op: Op::Mul, operands: seq![w[j as int], x[j as int]] },
            NodeView {
                op: Op::Add,
                operands: seq![partial_sum(start, zero, j), (start + 2 * j) as usize],
            },
        ]
    }
}

/// The nodes that a neuron appends at index `start`: the weighted sum of its
/// inputs, followed by a rectified linear unit when it is activated.
pub open spec fn neuron_nodes(
    start: nat,
    zero: usize,
    w: Seq<usize>,
    x: Seq<usize>,
    activation: bool,
) -> Seq<NodeView> {
    let sum = sum_nodes(start, zero, w, x, w.len());
    if activation {
        sum.push(NodeView { op: Op::Relu, operands: seq![partial_sum(start, zero, w.len())] })
    } else {
        sum
    }
}

impl Graph {
    /// Appends the output of a neuron with weights `w` on inputs `x`: the sum,
    /// starting from the node `zero`, of each weight times its input, passed
    /// through a rectified linear unit when `activation` holds. Returns the
    /// index of the output node.
    pub fn neuron(&mut self, zero: usize, w: &Vec<usize>, x: &Vec<usize>, activation: bool) -> (r:
        usize)
        requires
            old(self).wf(),
            zero < old(self)@.len(),
            w@.len() == x@.len(),
            forall|j: int| 0 <= j < w@.len() ==> #[trigger] w@[j] < old(self)@.len(),
            forall|j: int| 0 <= j < x@.len() ==> #[trigger] x@[j] < old(self)@.len(),
        ensures
            final(self).wf(),
            final(self)@ == old(self)@ + neuron_nodes(
                old(self)@.len(),
                zero,
                w@,
                x@,
                activation,
            ),
            r == if activation {
                final(self)@.len() - 1
            } else {
                partial_sum(old(self)@.len(), zero, w@.len()) as int
            },
    {
        let ghost start = self@.len();
        let ghost g0 = self@;
        let mut acc = zero;
        let mut i: usize = 0;
        while i < w.len()
            invariant
                self.wf(),
                i <= w@.len(),
                w@.len() == x@.len(),
                forall|j: int| 0 <= j < w@.len() ==> #[trigger] w@[j] < g0.len(),
                forall|j: int| 0 <= j < x@.len() ==> #[trigger] x@[j] < g0.len(),
                zero < g0.len(),
                start == g0.len(),
                self@ == g0 + sum_nodes(start, zero, w@, x@, i as nat),
                self@.len() == start + 2 * i,
                acc == partial_sum(start, zero, i as nat),
                acc < self@.len(),
            decreases w@.len() - i,
        {
            let m = self.mul(w[i], x[i]);
            acc = self.add(acc, m);
            i += 1;
            assert(self@ =~= g0 + sum_nodes(start, zero, w@, x@, i as nat));
        }
        if activation {
            let r = self.relu(acc);
            assert(self@ =~= g0 + neuron_nodes(start, zero, w@, x@, activation));
            r
        } else {
            acc
        }
    }
}

} // verus!

use vstd::prelude::*;

use crate::graph::{
    Graph, NodeView, Op, graph_wf, is_post_order, is_topo_order, lemma_reaches_self,
    lemma_reaches_through, node_wf, reaches,
};

verus! {

/// How one contribution to an operand's gradient is formed from the gradient
/// of the node that uses the operand.
#[derive(Clone, Copy, Debug, PartialEq, Eq, Structural)]
pub enum Rule {
    /// The node's gradient, whole (each operand of a sum).
    Pass,
    /// The node's gradient times the value of the node at this index (the
    /// other factor of a product).
    ScaleBy(usize),
    /// The node's gradient times `e * b^(e - 1)`, where `b` and `e` are the
    /// base and exponent recorded on the node when it was created.
    Power,
    /// The node's gradient where the node's own value is strictly positive,
    /// zero elsewhere.
    Gate,
}

/// Add the contribution that `rule` forms from the gradient of node `from`
/// to the gradient of node `to`.
#[derive(Clone, Copy, Debug, PartialEq, Eq, Structural)]
pub struct Step {
    pub from: usize,
    pub to: usize,
    pub rule: Rule,
}

/// The contributions that node `n` passes to its operands, by the chain rule.
pub open spec fn node_steps(g: Seq<NodeView>, n: usize) -> Seq<Step> {
    let ops = g[n as int].operands;
    match g[n as int].op {
        Op::Leaf => seq![],
        Op::Add => seq![
            Step { from: n, to: ops[0], rule: Rule::Pass },
            Step { from: n, to: ops[1], rule: Rule::Pass },
        ],
        Op::Mul => seq![
            Step { from: n, to: ops[0], rule: Rule::ScaleBy(ops[1]) },
            Step { from: n, to: ops[1], rule: Rule::ScaleBy(ops[0]) },
        ],
        Op::Pow => seq![Step { from: n, to: ops[0], rule: Rule::Power }],
        Op::Relu => seq![Step { from: n, to: ops[0], rule: Rule::Gate }],
    }
}

/// The contributions of the nodes of `nodes`, taken in that order.
pub open spec fn steps_of(g: Seq<NodeView>, nodes: Seq<usize>) -> Seq<Step>
    decreases nodes.len(),
{
    if nodes.len() == 0 {
        seq![]
    } else {
        steps_of(g, nodes.drop_last()) + node_steps(g, nodes.last())
    }
}

/// The backward pass over a topological order: its nodes are taken from the
/// last (the root) to the first, each passing its gradient to its operands.
pub open spec fn schedule(g: Seq<NodeView>, order: Seq<usize>) -> Seq<Step> {
    steps_of(g, order.reverse())
}

/// In `nodes`, no node has an operand at its own position or before it: each
/// node comes before every node it uses.
pub open spec fn users_first(g: Seq<NodeView>, nodes: Seq<usize>) -> bool {
    forall|p: int, q: int, k: int|
        0 <= q <= p < nodes.len() && 0 <= k < g[nodes[p] as int].operands.len() ==> #[trigger] nodes[q]
            != #[trigger] g[nodes[p] as int].operands[k]
}

/// Every step of `steps_of(g, nodes)` runs from a node of `nodes` to one of
/// that node's operands.
proof fn lemma_steps_follow_edges(g: Seq<NodeView>, nodes: Seq<usize>)
    requires
        graph_wf(g),
        forall|p: int| 0 <= p < nodes.len() ==> #[trigger] nodes[p] < g.len(),
    ensures
        forall|i: int|
            0 <= i < steps_of(g, nodes).len() ==> nodes.contains(#[trigger] steps_of(g, nodes)[i].from)
                && g[steps_of(g, nodes)[i].from as int].operands.contains(steps_of(g, nodes)[i].to),
    decreases nodes.len(),
{
    if nodes.len() > 0 {
        let front = nodes.drop_last();
        let n = nodes.last();
        lemma_steps_follow_edges(g, front);
        assert(node_wf(g[n as int], n as int));
        let all = steps_of(g, nodes);
        let old_steps = steps_of(g, front);
        assert forall|i: int| 0 <= i < all.len() implies nodes.contains(#[trigger] all[i].from)
            && g[all[i].from as int].operands.contains(all[i].to) by {
            if i < old_steps.len() {
                assert(all[i] == old_steps[i]);
                let p = choose|p: int| 0 <= p < front.len() && front[p] == old_steps[i].from;
                assert(nodes[p] == front[p]);
            } else {
                assert(nodes[nodes.len() - 1] == n);
                let ops = g[n as int].operands;
                assert(ops.contains(ops[0]));
                if ops.len() > 1 {
                    assert(ops.contains(ops[1]));
                }
            }
        }
    }
}

/// When each node comes before every node it uses, a node receives all of its
/// contributions before it passes on any of its own.
proof fn lemma_received_before_passed(g: Seq<NodeView>, nodes: Seq<usize>)
    requires
        graph_wf(g),
        forall|p: int| 0 <= p < nodes.len() ==> #[trigger] nodes[p] < g.len(),
        users_first(g, nodes),
    ensures
        forall|i: int, j: int|
            0 <= i < steps_of(g, nodes).len() && 0 <= j < steps_of(g, nodes).len()
                && #[trigger] steps_of(g, nodes)[i].to == #[trigger] steps_of(g, nodes)[j].from
                ==> i < j,
    decreases nodes.len(),
{
    if nodes.len() > 0 {
        let front = nodes.drop_last();
        let last = nodes.len() - 1;
        let n = nodes.last();
        assert(users_first(g, front)) by {
            assert forall|p: int, q: int, k: int|
                0 <= q <= p < front.len() && 0 <= k < g[front[p] as int].operands.len() implies #[trigger] front[q]
                != #[trigger] g[front[p] as int].operands[k] by {
                assert(nodes[q] == front[q] && nodes[p] == front[p]);
            }
        }
        lemma_received_before_passed(g, front);
        lemma_steps_follow_edges(g, front);
        assert(node_wf(g[n as int], n as int));
        let all = steps_of(g, nodes);
        let old_steps = steps_of(g, front);
        let ops = g[n as int].operands;
        assert forall|i: int, j: int|
            0 <= i < all.len() && 0 <= j < all.len() && #[trigger] all[i].to == #[trigger] all[j].from
                implies i < j by {
            if i >= old_steps.len() {
                let k = if all[i].to == ops[0] { 0int } else { 1int };
                assert(0 <= k < ops.len() && all[i].to == ops[k]);
                assert(nodes[last] == n);
                if j < old_steps.len() {
                    assert(all[j] == old_steps[j]);
                    let q = choose|q: int| 0 <= q < front.len() && front[q] == old_steps[j].from;
                    assert(nodes[q] == front[q]);
                    assert(nodes[q] != g[nodes[last] as int].operands[k]);
                } else {
                    assert(nodes[last] != g[nodes[last] as int].operands[k]);
                }
            } else if j < old_steps.len() {
                assert(all[i] == old_steps[i] && all[j] == old_steps[j]);
            }
        }
    }
}

/// Reversing a post-order puts each node before every node it uses.
proof fn lemma_reversed_post_order(g: Seq<NodeView>, order: Seq<usize>)
    requires
        is_post_order(g, order),
    ensures
        users_first(g, order.reverse()),
        forall|p: int| 0 <= p < order.reverse().len() ==> #[trigger] order.reverse()[p] < g.len(),
{
    reveal(is_post_order);
    let rev = order.reverse();
    let len = order.len() as int;
    assert forall|p: int, q: int, k: int|
        0 <= q <= p < rev.len() && 0 <= k < g[rev[p] as int].operands.len() implies #[trigger] rev[q]
        != #[trigger] g[rev[p] as int].operands[k] by {
        let pp = len - 1 - p;
        let qq = len - 1 - q;
        assert(rev[p] == order[pp] && rev[q] == order[qq]);
        let c = g[order[pp] as int].operands[k];
        assert(order.subrange(0, pp).contains(c));
        let r = choose|r: int| 0 <= r < pp && order.subrange(0, pp)[r] == c;
        assert(order[r] == c);
    }
    assert forall|p: int| 0 <= p < rev.len() implies #[trigger] rev[p] < g.len() by {
        assert(rev[p] == order[len - 1 - p]);
    }
}

/// The backward pass over a topological order adds every contribution that a
/// node receives before the node passes on its own gradient, so that what it
/// passes on is complete.
pub proof fn lemma_backward_accumulates_first(g: Seq<NodeView>, root: usize, order: Seq<usize>)
    requires
        graph_wf(g),
        is_topo_order(g, root, order),
    ensures
        forall|i: int, j: int|
            0 <= i < schedule(g, order).len() && 0 <= j < schedule(g, order).len()
                && #[trigger] schedule(g, order)[i].to == #[trigger] schedule(g, order)[j].from
                ==> i < j,
{
    lemma_reversed_post_order(g, order);
    lemma_received_before_passed(g, order.reverse());
}

/// The backward pass from `root` passes gradients only between nodes that
/// `root` reaches, and never into `root` itself, whose seed gradient thus
/// stands to the end.
pub proof fn lemma_backward_stays_below_root(g: Seq<NodeView>, root: usize, order: Seq<usize>)
    requires
        graph_wf(g),
        is_topo_order(g, root, order),
    ensures
        forall|i: int|
            0 <= i < schedule(g, order).len() ==> reaches(g, root, #[trigger] schedule(g, order)[i].from)
                && reaches(g, root, schedule(g, order)[i].to) && schedule(g, order)[i].to != root,
{
    let rev = order.reverse();
    let steps = schedule(g, order);
    lemma_reversed_post_order(g, order);
    lemma_steps_follow_edges(g, rev);
    assert(rev[0] == root);
    assert forall|i: int| 0 <= i < steps.len() implies reaches(g, root, #[trigger] steps[i].from)
        && reaches(g, root, steps[i].to) && steps[i].to != root by {
        let s = steps[i];
        let p = choose|p: int| 0 <= p < rev.len() && rev[p] == s.from;
        assert(rev[p] == order[order.len() - 1 - p]);
        assert(order.contains(s.from));
        let ops = g[s.from as int].operands;
        let k = choose|k: int| 0 <= k < ops.len() && ops[k] == s.to;
        assert(g[rev[p] as int].operands[k] == s.to);
        assert(rev[0] != g[rev[p] as int].operands[k]);
        assert(node_wf(g[s.from as int], s.from as int));
        lemma_reaches_self(g, s.to);
        lemma_reaches_through(g, s.from, k, s.to);
        crate::graph::lemma_reaches_trans(g, root, s.from, s.to);
    }
}

/// A backward pass from a leaf visits the leaf alone and passes nothing on:
/// only the leaf's own gradient, set to the seed, changes.
pub proof fn lemma_backward_from_leaf(g: Seq<NodeView>, root: usize, order: Seq<usize>)
    requires
        graph_wf(g),
        root < g.len(),
        g[root as int].op == Op::Leaf,
        is_topo_order(g, root, order),
    ensures
        order == seq![root],
        schedule(g, order) == Seq::<Step>::empty(),
{
    reveal(is_post_order);
    crate::graph::lemma_leaf_reaches_itself_only(g, root);
    assert forall|p: int| 0 <= p < order.len() implies order[p] == root by {
        assert(order.contains(order[p]));
    }
    if order.len() > 1 {
        assert(order[0] == root && order[order.len() - 1] == root);
    }
    assert(order =~= seq![root]);
    assert(order.reverse() =~= seq![root]);
    assert(order.reverse().drop_last() =~= Seq::<usize>::empty());
    assert(steps_of(g, Seq::<usize>::empty()) == Seq::<Step>::empty());
    assert(node_steps(g, root) =~= Seq::<Step>::empty());
    assert(schedule(g, order) =~= Seq::<Step>::empty());
}

impl Graph {
    /// The contributions of the backward pass over `order`, in the order in
    /// which they are to be added: the nodes of `order` from last to first,
    /// each with the steps that its operation prescribes.
    pub fn propagation_steps(&self, order: &Vec<usize>) -> (r: Vec<Step>)
        requires
            self.wf(),
            forall|p: int| 0 <= p < order@.len() ==> #[trigger] order@[p] < self@.len(),
        ensures
            r@ == schedule(self@, order@),
    {
        let ghost g = self@;
        let ghost rev = order@.reverse();
        let mut steps: Vec<Step> = Vec::new();
        let mut i: usize = order.len();
        assert(rev.take(0) =~= seq![]);
        while i > 0
            invariant
                self.wf(),
                g == self@,
                i <= order@.len(),
                rev == order@.reverse(),
                rev.len() == order@.len(),
                forall|p: int| 0 <= p < order@.len() ==> #[trigger] order@[p] < g.len(),
                steps@ == steps_of(g, rev.take(order@.len() - i)),
            decreases i,
        {
            let n = order[i - 1];
            let node = self.node(n);
            assert(node_wf(g[n as int], n as int));
            match node.op {
                Op::Leaf => {},
                Op::Add => {
                    steps.push(Step { from: n, to: node.operands[0], rule: Rule::Pass });
                    steps.push(Step { from: n, to: node.operands[1], rule: Rule::Pass });
                },
                Op::Mul => {
                    let a = node.operands[0];
                    let b = node.operands[1];
                    steps.push(Step { from: n, to: a, rule: Rule::ScaleBy(b) });
                    steps.push(Step { from: n, to: b, rule: Rule::ScaleBy(a) });
                },
                Op::Pow => {
                    steps.push(Step { from: n, to: node.operands[0], rule: Rule::Power });
                },
                Op::Relu => {
                    steps.push(Step { from: n, to: node.operands[0], rule: Rule::Gate });
                },
            }
            let ghost done = rev.take(order@.len() - i + 1);
            assert(done.drop_last() =~= rev.take(order@.len() - i));
            assert(done.last() == n);
            i -= 1;
            assert(steps@ =~= steps_of(g, done));
        }
        assert(rev.take(order@.len() as int) =~= rev);
        steps
    }
}

} // verus!

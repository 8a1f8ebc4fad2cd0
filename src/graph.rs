use vstd::prelude::*;

verus! {

/// How a node of the computation graph was produced.
#[derive(Clone, Copy, Debug, PartialEq, Eq, Structural)]
pub enum Op {
    /// An input or a constant: no operands.
    Leaf,
    /// The sum of two operands.
    Add,
    /// The product of two operands.
    Mul,
    /// One operand raised to a fixed exponent.
    Pow,
    /// The rectified linear unit of one operand.
    Relu,
}

/// Number of operands that a node produced by `op` has.
pub open spec fn arity(op: Op) -> nat {
    match op {
        Op::Leaf => 0,
        Op::Add => 2,
        Op::Mul => 2,
        Op::Pow => 1,
        Op::Relu => 1,
    }
}

/// One node of the graph: its operation and the indices of its operands.
#[derive(Clone, Debug)]
pub struct Node {
    pub op: Op,
    pub operands: Vec<usize>,
}

/// The mathematical content of a `Node`.
pub struct NodeView {
    pub op: Op,
    pub operands: Seq<usize>,
}

impl View for Node {
    type V = NodeView;

    open spec fn view(&self) -> NodeView {
        NodeView { op: self.op, operands: self.operands@ }
    }
}

/// A node is well placed at index `i` when it has as many operands as its
/// operation asks for, each of them a node created before it.
pub open spec fn node_wf(n: NodeView, i: int) -> bool {
    &&& n.operands.len() == arity(n.op)
    &&& forall|k: int| 0 <= k < n.operands.len() ==> #[trigger] n.operands[k] < i
}

/// Every node of the arena is well placed, hence the graph is acyclic.
pub open spec fn graph_wf(g: Seq<NodeView>) -> bool {
    forall|i: int| 0 <= i < g.len() ==> #[trigger] node_wf(g[i], i)
}

/// Each node of `order` is a node of `g`, none occurs twice, and every operand
/// of a node occurs before it.
#[verifier::opaque]
pub open spec fn is_post_order(g: Seq<NodeView>, order: Seq<usize>) -> bool {
    &&& order.no_duplicates()
    &&& forall|p: int| 0 <= p < order.len() ==> #[trigger] order[p] < g.len()
    &&& forall|p: int, k: int|
        0 <= p < order.len() && 0 <= k < g[order[p] as int].operands.len()
            ==> order.subrange(0, p).contains(#[trigger] g[order[p] as int].operands[k])
}

/// `order` lists exactly the nodes reachable from `root`, each once, operands
/// before the nodes that use them, and `root` last.
pub open spec fn is_topo_order(g: Seq<NodeView>, root: usize, order: Seq<usize>) -> bool {
    &&& is_post_order(g, order)
    &&& order.len() > 0
    &&& order.last() == root
    &&& forall|n: usize| reaches(g, root, n) <==> #[trigger] order.contains(n)
}

/// `path` runs through nodes of `g`, each entry after the first an operand
/// of the entry before it.
pub open spec fn is_path(g: Seq<NodeView>, path: Seq<usize>) -> bool {
    &&& path.len() > 0
    &&& forall|i: int| 0 <= i < path.len() ==> #[trigger] path[i] < g.len()
    &&& forall|i: int| 0 < i < path.len() ==> #[trigger] linked(g, path, i)
}

/// The entry of `path` at `i` is an operand of the entry before it.
pub open spec fn linked(g: Seq<NodeView>, path: Seq<usize>, i: int) -> bool {
    g[path[i - 1] as int].operands.contains(path[i])
}

/// `to` is `from` itself or is reached from it by following operands.
#[verifier::opaque]
pub open spec fn reaches(g: Seq<NodeView>, from: usize, to: usize) -> bool {
    exists|path: Seq<usize>| #[trigger] is_path(g, path) && path[0] == from && path.last() == to
}

/// Along a path in a well-formed graph the indices only go down.
proof fn lemma_path_descends(g: Seq<NodeView>, path: Seq<usize>, i: int)
    requires
        graph_wf(g),
        is_path(g, path),
        0 <= i < path.len(),
    ensures
        path[i] <= path[0],
        i > 0 ==> path[i] < path[0],
    decreases i,
{
    if i > 0 {
        lemma_path_descends(g, path, i - 1);
        let n = path[i - 1] as int;
        assert(path[i - 1] < g.len());
        assert(node_wf(g[n], n));
        assert(linked(g, path, i));
    }
}

/// Nothing is reached from a node but nodes created no later than it.
pub proof fn lemma_reaches_below(g: Seq<NodeView>, from: usize, to: usize)
    requires
        graph_wf(g),
        reaches(g, from, to),
    ensures
        to <= from < g.len(),
{
    reveal(reaches);
    let path = choose|path: Seq<usize>| #[trigger] is_path(g, path) && path[0] == from && path.last() == to;
    lemma_path_descends(g, path, path.len() - 1);
    assert(path[0] < g.len());
}

/// A node reaches itself.
pub proof fn lemma_reaches_self(g: Seq<NodeView>, n: usize)
    requires
        n < g.len(),
    ensures
        reaches(g, n, n),
{
    reveal(reaches);
    let path = seq![n];
    assert(is_path(g, path));
}

/// What a node reaches through one of its operands, it reaches itself.
pub proof fn lemma_reaches_through(g: Seq<NodeView>, from: usize, k: int, to: usize)
    requires
        from < g.len(),
        0 <= k < g[from as int].operands.len(),
        reaches(g, g[from as int].operands[k], to),
    ensures
        reaches(g, from, to),
{
    reveal(reaches);
    let c = g[from as int].operands[k];
    let path = choose|path: Seq<usize>| #[trigger] is_path(g, path) && path[0] == c && path.last() == to;
    let longer = Seq::new(path.len() + 1, |i: int| if i == 0 { from } else { path[i - 1] });
    assert forall|i: int| 0 <= i < longer.len() implies #[trigger] longer[i] < g.len() by {
        if i > 0 {
            assert(path[i - 1] < g.len());
        }
    }
    assert forall|i: int| 0 < i < longer.len() implies #[trigger] linked(g, longer, i) by {
        if i == 1 {
            assert(g[from as int].operands[k] == c);
        } else {
            assert(linked(g, path, i - 1));
        }
    }
    assert(is_path(g, longer));
    assert(longer.last() == to);
}

/// A post-order that holds the start of a path holds the whole path.
proof fn lemma_post_order_holds_path(g: Seq<NodeView>, order: Seq<usize>, path: Seq<usize>, i: int)
    requires
        is_post_order(g, order),
        is_path(g, path),
        order.contains(path[0]),
        0 <= i < path.len(),
    ensures
        order.contains(path[i]),
    decreases i,
{
    reveal(reaches);
    reveal(is_post_order);
    if i > 0 {
        lemma_post_order_holds_path(g, order, path, i - 1);
        let n = path[i - 1];
        let p = choose|p: int| 0 <= p < order.len() && order[p] == n;
        assert(order[p] < g.len());
        let ops = g[order[p] as int].operands;
        assert(linked(g, path, i));
        assert(ops.contains(path[i]));
        let k = choose|k: int| 0 <= k < ops.len() && ops[k] == path[i];
        assert(order.subrange(0, p).contains(ops[k]));
        let q = choose|q: int| 0 <= q < p && order.subrange(0, p)[q] == ops[k];
        assert(order[q] == path[i]);
    }
}

/// A post-order that holds `from` holds every node that `from` reaches.
pub proof fn lemma_post_order_closed(g: Seq<NodeView>, order: Seq<usize>, from: usize, to: usize)
    requires
        is_post_order(g, order),
        order.contains(from),
        reaches(g, from, to),
    ensures
        order.contains(to),
{
    reveal(reaches);
    reveal(is_post_order);
    let path = choose|path: Seq<usize>| #[trigger] is_path(g, path) && path[0] == from && path.last() == to;
    lemma_post_order_holds_path(g, order, path, path.len() - 1);
}

/// `visited` marks exactly the nodes that `order` holds.
pub open spec fn marks(visited: Seq<bool>, order: Seq<usize>) -> bool {
    forall|i: int| 0 <= i < visited.len() ==> #[trigger] visited[i] == order.contains(i as usize)
}

/// `longer` starts with `shorter`.
pub open spec fn extends(shorter: Seq<usize>, longer: Seq<usize>) -> bool {
    &&& shorter.len() <= longer.len()
    &&& forall|i: int| 0 <= i < shorter.len() ==> #[trigger] longer[i] == shorter[i]
}

proof fn lemma_extends_contains(shorter: Seq<usize>, longer: Seq<usize>)
    requires
        extends(shorter, longer),
    ensures
        forall|x: usize| shorter.contains(x) ==> #[trigger] longer.contains(x),
{
    assert forall|x: usize| shorter.contains(x) implies #[trigger] longer.contains(x) by {
        let p = choose|p: int| 0 <= p < shorter.len() && shorter[p] == x;
        assert(longer[p] == x);
    }
}

proof fn lemma_extends_trans(a: Seq<usize>, b: Seq<usize>, c: Seq<usize>)
    requires
        extends(a, b),
        extends(b, c),
    ensures
        extends(a, c),
{
    assert forall|i: int| 0 <= i < a.len() implies #[trigger] c[i] == a[i] by {
        assert(b[i] == a[i]);
    }
}

/// After the operand `k` of `n` was visited: what `order` gained is reached
/// from `n`, and `n` is still not listed.
proof fn lemma_visit_operand(
    g: Seq<NodeView>,
    n: usize,
    k: int,
    order0: Seq<usize>,
    order1: Seq<usize>,
    order: Seq<usize>,
)
    requires
        graph_wf(g),
        n < g.len(),
        0 <= k < g[n as int].operands.len(),
        extends(order0, order1),
        extends(order1, order),
        !order1.contains(n),
        forall|p: int| order0.len() <= p < order1.len() ==> reaches(g, n, #[trigger] order1[p]),
        forall|p: int|
            order1.len() <= p < order.len() ==> reaches(
                g,
                g[n as int].operands[k],
                #[trigger] order[p],
            ),
    ensures
        extends(order0, order),
        forall|x: usize| order1.contains(x) ==> #[trigger] order.contains(x),
        forall|p: int| order0.len() <= p < order.len() ==> reaches(g, n, #[trigger] order[p]),
        !order.contains(n),
{
    let c = g[n as int].operands[k];
    assert(node_wf(g[n as int], n as int));
    assert(c < n);
    lemma_extends_contains(order1, order);
    lemma_extends_trans(order0, order1, order);
    assert forall|p: int| order0.len() <= p < order.len() implies reaches(
        g,
        n,
        #[trigger] order[p],
    ) by {
        if p < order1.len() {
            assert(order1[p] == order[p]);
        } else {
            lemma_reaches_through(g, n, k, order[p]);
        }
    }
    if order.contains(n) {
        let p = choose|p: int| 0 <= p < order.len() && order[p] == n;
        if p >= order1.len() {
            lemma_reaches_below(g, c, n);
        } else {
            assert(order1[p] == order[p]);
        }
    }
}

/// Listing `n` after all of its operands keeps a post-order.
proof fn lemma_post_order_push(g: Seq<NodeView>, order: Seq<usize>, n: usize)
    requires
        is_post_order(g, order),
        n < g.len(),
        !order.contains(n),
        forall|j: int|
            0 <= j < g[n as int].operands.len() ==> order.contains(#[trigger] g[n as int].operands[j]),
    ensures
        is_post_order(g, order.push(n)),
        extends(order, order.push(n)),
{
    reveal(is_post_order);
    let o = order.push(n);
    assert forall|p: int, j: int|
        0 <= p < o.len() && 0 <= j < g[o[p] as int].operands.len() implies o.subrange(
        0,
        p,
    ).contains(#[trigger] g[o[p] as int].operands[j]) by {
        if p < order.len() {
            assert(o.subrange(0, p) =~= order.subrange(0, p));
        } else {
            assert(o.subrange(0, p) =~= order);
        }
    }
    assert forall|a: int, b: int| 0 <= a < o.len() && 0 <= b < o.len() && a != b implies o[a]
        != o[b] by {
        if a < order.len() && b < order.len() {
            assert(order[a] == o[a] && order[b] == o[b]);
        } else if a < order.len() {
            assert(order[a] == o[a]);
        } else if b < order.len() {
            assert(order[b] == o[b]);
        }
    }
    assert forall|p: int| 0 <= p < o.len() implies #[trigger] o[p] < g.len() by {
        if p < order.len() {
            assert(order[p] == o[p]);
        }
    }
}

/// A post-order that ends in `root` and holds only what `root` reaches holds
/// exactly what `root` reaches.
proof fn lemma_topo_from_post_order(g: Seq<NodeView>, root: usize, order: Seq<usize>)
    requires
        is_post_order(g, order),
        order.contains(root),
        order.len() > 0,
        order.last() == root,
        forall|p: int| 0 <= p < order.len() ==> reaches(g, root, #[trigger] order[p]),
    ensures
        is_topo_order(g, root, order),
{
    assert forall|n: usize| reaches(g, root, n) <==> #[trigger] order.contains(n) by {
        if reaches(g, root, n) {
            lemma_post_order_closed(g, order, root, n);
        }
        if order.contains(n) {
            let p = choose|p: int| 0 <= p < order.len() && order[p] == n;
            assert(reaches(g, root, order[p]));
        }
    }
}

proof fn lemma_marks_push(visited: Seq<bool>, order: Seq<usize>, n: usize)
    requires
        marks(visited, order),
        n < visited.len() <= usize::MAX,
        !order.contains(n),
    ensures
        marks(visited.update(n as int, true), order.push(n)),
{
    let v = visited.update(n as int, true);
    let o = order.push(n);
    assert forall|i: int| 0 <= i < v.len() implies #[trigger] v[i] == o.contains(i as usize) by {
        assert(o[order.len() as int] == n);
        if order.contains(i as usize) {
            let p = choose|p: int| 0 <= p < order.len() && order[p] == i as usize;
            assert(o[p] == order[p]);
        }
        if i != n && o.contains(i as usize) {
            let p = choose|p: int| 0 <= p < o.len() && o[p] == i as usize;
            assert(order[p] == o[p]);
        }
    }
}

/// Reaching is transitive.
pub proof fn lemma_reaches_trans(g: Seq<NodeView>, a: usize, b: usize, c: usize)
    requires
        reaches(g, a, b),
        reaches(g, b, c),
    ensures
        reaches(g, a, c),
{
    reveal(reaches);
    let p1 = choose|path: Seq<usize>| #[trigger] is_path(g, path) && path[0] == a && path.last() == b;
    let p2 = choose|path: Seq<usize>| #[trigger] is_path(g, path) && path[0] == b && path.last() == c;
    let joined = p1 + p2.drop_first();
    let n1 = p1.len() as int;
    assert forall|i: int| 0 <= i < joined.len() implies #[trigger] joined[i] < g.len() by {
        if i >= n1 {
            assert(joined[i] == p2[i - n1 + 1]);
        }
    }
    assert forall|i: int| 0 < i < joined.len() implies #[trigger] linked(g, joined, i) by {
        if i < n1 {
            assert(linked(g, p1, i));
        } else if i == n1 {
            assert(linked(g, p2, 1));
            assert(joined[i] == p2[1]);
            assert(joined[i - 1] == p1[n1 - 1]);
        } else {
            assert(linked(g, p2, i - n1 + 1));
            assert(joined[i] == p2[i - n1 + 1]);
            assert(joined[i - 1] == p2[i - n1]);
        }
    }
    assert(is_path(g, joined));
    if p2.len() == 1 {
        assert(joined =~= p1);
    } else {
        assert(joined.last() == p2.last());
    }
}

/// A leaf reaches nothing but itself.
pub proof fn lemma_leaf_reaches_itself_only(g: Seq<NodeView>, n: usize)
    requires
        graph_wf(g),
        n < g.len(),
        g[n as int].op == Op::Leaf,
    ensures
        forall|m: usize| #[trigger] reaches(g, n, m) ==> m == n,
{
    reveal(reaches);
    assert forall|m: usize| #[trigger] reaches(g, n, m) implies m == n by {
        let path = choose|path: Seq<usize>| #[trigger] is_path(g, path) && path[0] == n && path.last() == m;
        if path.len() > 1 {
            assert(node_wf(g[n as int], n as int));
            assert(linked(g, path, 1));
        }
    }
}

/// The depth-first post-order from `n` that extends `done`: nothing is added
/// when `done` holds `n` already; otherwise the walk from operand 0, then the
/// walk from operand 1, then `n` itself.
pub open spec fn dfs_order(g: Seq<NodeView>, n: usize, done: Seq<usize>) -> Seq<usize>
    decreases n,
{
    if n >= g.len() || done.contains(n) {
        done
    } else {
        after_operands(g, n, g[n as int].operands.len(), done).push(n)
    }
}

/// The walk in `dfs_order` once the first `k` operands of `n` are done.
pub open spec fn after_operands(g: Seq<NodeView>, n: usize, k: nat, done: Seq<usize>) -> Seq<usize>
    decreases n, k,
{
    if k == 0 || n >= g.len() || k > g[n as int].operands.len() {
        done
    } else {
        let c = g[n as int].operands[k - 1];
        let before = after_operands(g, n, (k - 1) as nat, done);
        if c < n {
            dfs_order(g, c, before)
        } else {
            before
        }
    }
}

/// The arena that owns every node of a computation.
pub struct Graph {
    nodes: Vec<Node>,
}

impl View for Graph {
    type V = Seq<NodeView>;

    closed spec fn view(&self) -> Seq<NodeView> {
        self.nodes@.map_values(|n: Node| n@)
    }
}

impl Graph {
    /// The well-formedness of the arena.
    pub open spec fn wf(&self) -> bool {
        graph_wf(self@)
    }

    /// An empty arena.
    pub fn new() -> (r: Graph)
        ensures
            r.wf(),
            r@.len() == 0,
    {
        let r = Graph { nodes: Vec::new() };
        assert(r@ =~= Seq::<NodeView>::empty());
        r
    }

    /// Number of nodes in the arena.
    pub fn len(&self) -> (r: usize)
        ensures
            r == self@.len(),
    {
        self.nodes.len()
    }

    /// The node at index `i`.
    pub fn node(&self, i: usize) -> (r: &Node)
        requires
            i < self@.len(),
        ensures
            r@ == self@[i as int],
    {
        &self.nodes[i]
    }

    fn push(&mut self, op: Op, operands: Vec<usize>) -> (r: usize)
        requires
            old(self).wf(),
            node_wf(NodeView { op, operands: operands@ }, old(self)@.len() as int),
        ensures
            final(self).wf(),
            r == old(self)@.len(),
            final(self)@ == old(self)@.push(NodeView { op, operands: operands@ }),
    {
        let r = self.nodes.len();
        let ghost before = self@;
        self.nodes.push(Node { op, operands });
        assert(self@ =~= before.push(NodeView { op, operands: operands@ }));
        r
    }

    /// Appends a leaf node and returns its index.
    pub fn leaf(&mut self) -> (r: usize)
        requires
            old(self).wf(),
        ensures
            final(self).wf(),
            r == old(self)@.len(),
            final(self)@ == old(self)@.push(NodeView { op: Op::Leaf, operands: seq![] }),
    {
        let operands: Vec<usize> = Vec::new();
        assert(operands@ =~= seq![]);
        self.push(Op::Leaf, operands)
    }

    /// Appends `a + b` and returns its index.
    pub fn add(&mut self, a: usize, b: usize) -> (r: usize)
        requires
            old(self).wf(),
            a < old(self)@.len(),
            b < old(self)@.len(),
        ensures
            final(self).wf(),
            r == old(self)@.len(),
            final(self)@ == old(self)@.push(NodeView { op: Op::Add, operands: seq![a, b] }),
    {
        self.binary(Op::Add, a, b)
    }

    /// Appends `a * b` and returns its index.
    pub fn mul(&mut self, a: usize, b: usize) -> (r: usize)
        requires
            old(self).wf(),
            a < old(self)@.len(),
            b < old(self)@.len(),
        ensures
            final(self).wf(),
            r == old(self)@.len(),
            final(self)@ == old(self)@.push(NodeView { op: Op::Mul, operands: seq![a, b] }),
    {
        self.binary(Op::Mul, a, b)
    }

    /// Appends `a` raised to a fixed exponent and returns its index.
    pub fn pow(&mut self, a: usize) -> (r: usize)
        requires
            old(self).wf(),
            a < old(self)@.len(),
        ensures
            final(self).wf(),
            r == old(self)@.len(),
            final(self)@ == old(self)@.push(NodeView { op: Op::Pow, operands: seq![a] }),
    {
        self.unary(Op::Pow, a)
    }

    /// Appends the rectified linear unit of `a` and returns its index.
    pub fn relu(&mut self, a: usize) -> (r: usize)
        requires
            old(self).wf(),
            a < old(self)@.len(),
        ensures
            final(self).wf(),
            r == old(self)@.len(),
            final(self)@ == old(self)@.push(NodeView { op: Op::Relu, operands: seq![a] }),
    {
        self.unary(Op::Relu, a)
    }

    fn unary(&mut self, op: Op, a: usize) -> (r: usize)
        requires
            old(self).wf(),
            arity(op) == 1,
            a < old(self)@.len(),
        ensures
            final(self).wf(),
            r == old(self)@.len(),
            final(self)@ == old(self)@.push(NodeView { op, operands: seq![a] }),
    {
        let mut operands: Vec<usize> = Vec::new();
        operands.push(a);
        assert(operands@ =~= seq![a]);
        self.push(op, operands)
    }

    fn binary(&mut self, op: Op, a: usize, b: usize) -> (r: usize)
        requires
            old(self).wf(),
            arity(op) == 2,
            a < old(self)@.len(),
            b < old(self)@.len(),
        ensures
            final(self).wf(),
            r == old(self)@.len(),
            final(self)@ == old(self)@.push(NodeView { op, operands: seq![a, b] }),
    {
        let mut operands: Vec<usize> = Vec::new();
        operands.push(a);
        operands.push(b);
        assert(operands@ =~= seq![a, b]);
        self.push(op, operands)
    }

    /// Lists the nodes reachable from `root` in depth-first post-order:
    /// operands before the nodes that use them, each node once however many
    /// times it is reached, and `root` last.
    pub fn topo_order(&self, root: usize) -> (r: Vec<usize>)
        requires
            self.wf(),
            root < self@.len(),
        ensures
            is_topo_order(self@, root, r@),
            r@ == dfs_order(self@, root, seq![]),
    {
        let mut visited: Vec<bool> = Vec::new();
        let mut i: usize = 0;
        while i < self.nodes.len()
            invariant
                i <= self.nodes@.len(),
                visited@.len() == i,
                forall|j: int| 0 <= j < i ==> !#[trigger] visited@[j],
            decreases self.nodes@.len() - i,
        {
            visited.push(false);
            i += 1;
        }
        let mut order: Vec<usize> = Vec::new();
        assert(marks(visited@, order@));
        assert(order@ =~= seq![]);
        assert(is_post_order(self@, order@)) by {
            reveal(is_post_order);
        }
        self.visit(root, &mut visited, &mut order);
        proof {
            lemma_topo_from_post_order(self@, root, order@);
        }
        order
    }

    /// Appends to `order`, in post-order, the nodes reachable from `n` that
    /// it does not hold yet; `visited` marks the nodes that `order` holds.
    /// The graph is acyclic, so a node is never met again while its own
    /// operands are being listed: marking it once listed keeps every node
    /// to a single visit.
    fn visit(&self, n: usize, visited: &mut Vec<bool>, order: &mut Vec<usize>)
        requires
            self.wf(),
            n < self@.len(),
            old(visited)@.len() == self@.len(),
            is_post_order(self@, old(order)@),
            marks(old(visited)@, old(order)@),
        ensures
            final(visited)@.len() == self@.len(),
            is_post_order(self@, final(order)@),
            marks(final(visited)@, final(order)@),
            extends(old(order)@, final(order)@),
            final(order)@.contains(n),
            !old(order)@.contains(n) ==> final(order)@.last() == n,
            final(order)@ == dfs_order(self@, n, old(order)@),
            forall|p: int|
                old(order)@.len() <= p < final(order)@.len() ==> reaches(
                    self@,
                    n,
                    #[trigger] final(order)@[p],
                ),
        decreases n,
    {
        let ghost g = self@;
        let ghost order0 = order@;
        if visited[n] {
            return;
        }
        assert(!order@.contains(n));
        assert(self.nodes@[n as int]@ == g[n as int]);
        let operands = &self.nodes[n].operands;
        assert(node_wf(g[n as int], n as int));
        let mut k: usize = 0;
        while k < operands.len()
            invariant
                self.wf(),
                g == self@,
                n < g.len(),
                operands@ == g[n as int].operands,
                node_wf(g[n as int], n as int),
                0 <= k <= operands@.len(),
                visited@.len() == g.len(),
                is_post_order(g, order@),
                marks(visited@, order@),
                extends(order0, order@),
                !order@.contains(n),
                order@ == after_operands(g, n, k as nat, order0),
                forall|j: int| 0 <= j < k ==> order@.contains(#[trigger] operands@[j]),
                forall|p: int|
                    order0.len() <= p < order@.len() ==> reaches(g, n, #[trigger] order@[p]),
            decreases operands@.len() - k,
        {
            let c = operands[k];
            assert(c < n);
            let ghost order1 = order@;
            self.visit(c, visited, order);
            proof {
                lemma_visit_operand(g, n, k as int, order0, order1, order@);
            }
            k += 1;
        }
        assert(order@.push(n) == dfs_order(g, n, order0));
        let ghost order2 = order@;
        let ghost visited2 = visited@;
        assert(visited2.len() == visited.len());
        order.push(n);
        visited.set(n, true);
        proof {
            assert(order@ =~= order2.push(n));
            assert(visited@ =~= visited2.update(n as int, true));
            lemma_post_order_push(g, order2, n);
            lemma_reaches_self(g, n);
            lemma_extends_trans(order0, order2, order@);
            assert(order@[order@.len() - 1] == n);
            lemma_marks_push(visited2, order2, n);
        }
    }
}

} // verus!

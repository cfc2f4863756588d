use crate::helper::{pop_point, pushed_children, frames, lemma_top_fresh, DepthWalker, NodeOrdering};
use crate::tree::{node_topo, nodes_topo, nodes_wf, Node};
use vstd::prelude::*;

verus! {

/// `c` is an operand of `n`.
pub open spec fn is_operand(n: Node, c: int) -> bool {
    match n {
        Node::Unary(_, a) => a == c,
        Node::Binary(_, l, r) => l == c || r == c,
        _ => false,
    }
}

/// Node `to` lies in the subtree at `from`.
pub open spec fn reaches(nodes: Seq<Node>, from: int, to: int) -> bool
    decreases from,
{
    if from == to {
        true
    } else if 0 <= from < nodes.len() {
        match nodes[from] {
            Node::Unary(_, a) => a < from && reaches(nodes, a as int, to),
            Node::Binary(_, l, r) => (l < from && reaches(nodes, l as int, to)) || (r < from
                && reaches(nodes, r as int, to)),
            _ => false,
        }
    } else {
        false
    }
}

/// How many of the first `n` nodes lie in the subtree at `root`.
pub open spec fn live_count(nodes: Seq<Node>, root: int, n: int) -> nat
    decreases n,
{
    if n <= 0 {
        0
    } else {
        live_count(nodes, root, n - 1) + if reaches(nodes, root, n - 1) {
            1nat
        } else {
            0nat
        }
    }
}

/// `n` with each operand `c` renumbered to the count of live nodes before it.
pub open spec fn renumbered(nodes: Seq<Node>, root: int, n: Node) -> Node {
    match n {
        Node::Unary(op, a) => Node::Unary(op, live_count(nodes, root, a as int) as usize),
        Node::Binary(op, l, r) => Node::Binary(
            op,
            live_count(nodes, root, l as int) as usize,
            live_count(nodes, root, r as int) as usize,
        ),
        _ => n,
    }
}

/// The live nodes among the first `n`, in order, renumbered.
pub open spec fn pruned_prefix(nodes: Seq<Node>, root: int, n: int) -> Seq<Node>
    decreases n,
{
    if n <= 0 {
        Seq::empty()
    } else if reaches(nodes, root, n - 1) {
        pruned_prefix(nodes, root, n - 1).push(renumbered(nodes, root, nodes[n - 1]))
    } else {
        pruned_prefix(nodes, root, n - 1)
    }
}

/// The arena with every node outside the subtree at `root` removed and the
/// operands renumbered.
pub open spec fn pruned(nodes: Seq<Node>, root: int) -> Seq<Node> {
    pruned_prefix(nodes, root, nodes.len() as int)
}

pub proof fn lemma_reaches_operand(nodes: Seq<Node>, from: int, i: int, c: int)
    requires
        nodes_topo(nodes),
        0 <= i < nodes.len(),
        reaches(nodes, from, i),
        is_operand(nodes[i], c),
    ensures
        reaches(nodes, from, c),
    decreases from,
{
    assert(node_topo(nodes[i], i));
    if from == i {
        assert(reaches(nodes, c, c));
    } else {
        match nodes[from] {
            Node::Unary(_, a) => {
                lemma_reaches_operand(nodes, a as int, i, c);
            },
            Node::Binary(_, l, r) => {
                if l < from && reaches(nodes, l as int, i) {
                    lemma_reaches_operand(nodes, l as int, i, c);
                } else {
                    lemma_reaches_operand(nodes, r as int, i, c);
                }
            },
            _ => {},
        }
    }
}

pub proof fn lemma_reaches_below(nodes: Seq<Node>, from: int, to: int)
    requires
        reaches(nodes, from, to),
    ensures
        to <= from,
    decreases from,
{
    if from != to {
        match nodes[from] {
            Node::Unary(_, a) => {
                lemma_reaches_below(nodes, a as int, to);
            },
            Node::Binary(_, l, r) => {
                if l < from && reaches(nodes, l as int, to) {
                    lemma_reaches_below(nodes, l as int, to);
                } else {
                    lemma_reaches_below(nodes, r as int, to);
                }
            },
            _ => {},
        }
    }
}

/// A set of nodes closed under taking operands holds the whole subtree of
/// each of its nodes.
proof fn lemma_closed_holds_subtree(nodes: Seq<Node>, marks: Seq<bool>, from: int, to: int)
    requires
        nodes_topo(nodes),
        marks.len() == nodes.len(),
        0 <= from < nodes.len(),
        marks[from],
        forall|v: int, c: int|
            0 <= v < nodes.len() && marks[v] && #[trigger] is_operand(nodes[v], c) ==> marks[c],
        reaches(nodes, from, to),
    ensures
        marks[to],
    decreases from,
{
    assert(node_topo(nodes[from], from));
    if from != to {
        match nodes[from] {
            Node::Unary(_, a) => {
                assert(is_operand(nodes[from], a as int));
                lemma_closed_holds_subtree(nodes, marks, a as int, to);
            },
            Node::Binary(_, l, r) => {
                assert(is_operand(nodes[from], l as int));
                assert(is_operand(nodes[from], r as int));
                if l < from && reaches(nodes, l as int, to) {
                    lemma_closed_holds_subtree(nodes, marks, l as int, to);
                } else {
                    lemma_closed_holds_subtree(nodes, marks, r as int, to);
                }
            },
            _ => {},
        }
    }
}

pub(crate) proof fn lemma_pruned_prefix(nodes: Seq<Node>, root: int, n: int)
    requires
        0 <= n <= nodes.len(),
    ensures
        pruned_prefix(nodes, root, n).len() == live_count(nodes, root, n),
        live_count(nodes, root, n) <= n,
        forall|k: int|
            0 <= k < n && reaches(nodes, root, k) ==> #[trigger] pruned_prefix(nodes, root, n)[live_count(
                nodes,
                root,
                k,
            ) as int] == renumbered(nodes, root, nodes[k]),
    decreases n,
{
    if n > 0 {
        lemma_pruned_prefix(nodes, root, n - 1);
        assert forall|k: int|
            0 <= k < n && reaches(nodes, root, k) implies #[trigger] pruned_prefix(nodes, root, n)[live_count(
            nodes,
            root,
            k,
        ) as int] == renumbered(nodes, root, nodes[k]) by {
            if k < n - 1 {
                lemma_live_count_mono(nodes, root, k + 1, n - 1);
            }
        }
    }
}

pub(crate) proof fn lemma_live_count_mono(nodes: Seq<Node>, root: int, a: int, b: int)
    requires
        a <= b,
    ensures
        live_count(nodes, root, a) <= live_count(nodes, root, b),
    decreases b - a,
{
    if a < b {
        lemma_live_count_mono(nodes, root, a, b - 1);
    }
}

/// Live nodes keep their order: an earlier live node gets a smaller number.
pub(crate) proof fn lemma_live_count_strict(nodes: Seq<Node>, root: int, a: int, b: int)
    requires
        0 <= a < b,
        reaches(nodes, root, a),
    ensures
        live_count(nodes, root, a) < live_count(nodes, root, b),
{
    lemma_live_count_mono(nodes, root, a + 1, b);
}

/// Pruning a well-ordered arena gives a tree: non-empty, ordered, and with
/// the old root as its last node.
pub proof fn lemma_pruned_wf(nodes: Seq<Node>, root: int)
    requires
        nodes.len() <= usize::MAX,
        nodes_topo(nodes),
        0 <= root < nodes.len(),
    ensures
        nodes_wf(pruned(nodes, root)),
        live_count(nodes, root, root) == pruned(nodes, root).len() - 1,
        pruned(nodes, root).len() <= nodes.len(),
{
    let p = pruned(nodes, root);
    let len = nodes.len() as int;
    lemma_pruned_prefix(nodes, root, len);
    assert(reaches(nodes, root, root));
    assert forall|k: int| root < k < len implies !reaches(nodes, root, k) by {
        if reaches(nodes, root, k) {
            lemma_reaches_below(nodes, root, k);
        }
    }
    lemma_live_count_tail(nodes, root, root + 1, len);
    assert forall|j: int| 0 <= j < p.len() implies node_topo(#[trigger] p[j], j) by {
        let k = lemma_live_preimage(nodes, root, len, j);
        assert(node_topo(nodes[k], k));
        match nodes[k] {
            Node::Unary(_, a) => {
                lemma_reaches_operand(nodes, root, k, a as int);
                lemma_live_count_strict(nodes, root, a as int, k);
            },
            Node::Binary(_, l, r) => {
                lemma_reaches_operand(nodes, root, k, l as int);
                lemma_reaches_operand(nodes, root, k, r as int);
                lemma_live_count_strict(nodes, root, l as int, k);
                lemma_live_count_strict(nodes, root, r as int, k);
            },
            _ => {},
        }
    }
}

proof fn lemma_live_count_tail(nodes: Seq<Node>, root: int, a: int, b: int)
    requires
        a <= b,
        forall|k: int| a <= k < b ==> !reaches(nodes, root, k),
    ensures
        live_count(nodes, root, a) == live_count(nodes, root, b),
    decreases b - a,
{
    if a < b {
        lemma_live_count_tail(nodes, root, a, b - 1);
    }
}

/// Every position of the pruned prefix belongs to a live node.
pub(crate) proof fn lemma_live_preimage(nodes: Seq<Node>, root: int, n: int, j: int) -> (k: int)
    requires
        0 <= n <= nodes.len(),
        0 <= j < live_count(nodes, root, n),
    ensures
        0 <= k < n,
        reaches(nodes, root, k),
        live_count(nodes, root, k) == j,
    decreases n,
{
    if j < live_count(nodes, root, n - 1) {
        lemma_live_preimage(nodes, root, n - 1, j)
    } else {
        n - 1
    }
}

/// Every node of the pruned arena lies in the subtree of its root.
pub proof fn lemma_pruned_reachable(nodes: Seq<Node>, root: int, j: int)
    requires
        nodes.len() <= usize::MAX,
        nodes_topo(nodes),
        0 <= root < nodes.len(),
        0 <= j < pruned(nodes, root).len(),
    ensures
        reaches(pruned(nodes, root), pruned(nodes, root).len() - 1, j),
{
    lemma_pruned_wf(nodes, root);
    lemma_pruned_prefix(nodes, root, nodes.len() as int);
    let k = lemma_live_preimage(nodes, root, nodes.len() as int, j);
    lemma_reaches_renumbered(nodes, root, root, k);
}

proof fn lemma_reaches_renumbered(nodes: Seq<Node>, root: int, u: int, k: int)
    requires
        nodes.len() <= usize::MAX,
        nodes_topo(nodes),
        0 <= root < nodes.len(),
        0 <= u < nodes.len(),
        reaches(nodes, root, u),
        reaches(nodes, u, k),
    ensures
        reaches(
            pruned(nodes, root),
            live_count(nodes, root, u) as int,
            live_count(nodes, root, k) as int,
        ),
    decreases u,
{
    let p = pruned(nodes, root);
    lemma_pruned_prefix(nodes, root, nodes.len() as int);
    lemma_pruned_wf(nodes, root);
    let mu = live_count(nodes, root, u) as int;
    lemma_reaches_below(nodes, root, u);
    lemma_live_count_mono(nodes, root, u + 1, nodes.len() as int);
    assert(p[mu] == renumbered(nodes, root, nodes[u]));
    assert(node_topo(nodes[u], u));
    lemma_live_count_strict(nodes, root, u, nodes.len() as int);
    lemma_pruned_prefix(nodes, root, u);
    if u != k {
        match nodes[u] {
            Node::Unary(_, a) => {
                lemma_reaches_operand(nodes, root, u, a as int);
                lemma_live_count_strict(nodes, root, a as int, u);
                lemma_reaches_renumbered(nodes, root, a as int, k);
                lemma_pruned_prefix(nodes, root, a as int);
            },
            Node::Binary(_, l, r) => {
                lemma_reaches_operand(nodes, root, u, l as int);
                lemma_reaches_operand(nodes, root, u, r as int);
                lemma_live_count_strict(nodes, root, l as int, u);
                lemma_live_count_strict(nodes, root, r as int, u);
                lemma_pruned_prefix(nodes, root, l as int);
                lemma_pruned_prefix(nodes, root, r as int);
                if l < u && reaches(nodes, l as int, k) {
                    lemma_reaches_renumbered(nodes, root, l as int, k);
                } else {
                    lemma_reaches_renumbered(nodes, root, r as int, k);
                }
            },
            _ => {},
        }
    }
}

/// Node `c` sits in some frame of the stack.
pub open spec fn on_stack(st: Seq<(usize, Option<usize>)>, c: int) -> bool {
    exists|q: int| 0 <= q < st.len() && #[trigger] st[q].0 == c
}

/// The number of nodes not visited yet.
pub open spec fn fresh_count(vis: Seq<bool>) -> nat
    decreases vis.len(),
{
    if vis.len() == 0 {
        0
    } else {
        fresh_count(vis.drop_last()) + if vis.last() {
            0nat
        } else {
            1nat
        }
    }
}

proof fn lemma_fresh_count_visit(vis: Seq<bool>, i: int)
    requires
        0 <= i < vis.len(),
        !vis[i],
    ensures
        fresh_count(vis.update(i, true)) + 1 == fresh_count(vis),
    decreases vis.len(),
{
    let u = vis.update(i, true);
    if i < vis.len() - 1 {
        assert(u.drop_last() =~= vis.drop_last().update(i, true));
        lemma_fresh_count_visit(vis.drop_last(), i);
    } else {
        assert(u.drop_last() =~= vis.drop_last());
    }
}

/// Reusable buffers for removing the nodes outside the subtree of a root.
pub struct Trimmer {
    indices: Vec<(bool, usize)>,
    trimmed: Vec<Node>,
}

impl Trimmer {
    pub fn new() -> (r: Trimmer) {
        Trimmer { indices: vec![], trimmed: vec![] }
    }

    /// Keeps the nodes of the subtree at `root_index`, in their order, with
    /// their operands renumbered; drops the others.
    pub fn trim(&mut self, nodes: Vec<Node>, root_index: usize, walker: &mut DepthWalker) -> (r: Vec<Node>)
        requires
            nodes_topo(nodes@),
            root_index < nodes@.len(),
        ensures
            r@ == pruned(nodes@, root_index as int),
    {
        let mut nodes = nodes;
        let ghost ns = nodes@;
        let ghost root = root_index as int;
        let n = nodes.len();
        self.indices.clear();
        let mut k: usize = 0;
        while k < n
            invariant
                k <= n,
                self.indices@ == Seq::new(k as nat, |q: int| (false, 0usize)),
            decreases n - k,
        {
            self.indices.push((false, 0));
            k = k + 1;
            assert(self.indices@ =~= Seq::new(k as nat, |q: int| (false, 0usize)));
        }
        let mut it = walker.walk_nodes(nodes.as_slice(), root_index, true, NodeOrdering::Original);
        assert(on_stack(it.stack(), root)) by {
            assert(it.stack()[0].0 == root);
        }
        loop
            invariant
                it.inv(),
                it.nodes() == ns,
                ns == nodes@,
                n == ns.len(),
                root == root_index,
                0 <= root < n,
                it.unique(),
                it.ordering() == NodeOrdering::Original,
                self.indices@.len() == n,
                forall|q: int|
                    0 <= q < n ==> #[trigger] self.indices@[q] == (it.visited()[q], if it.visited()[q] {
                        1usize
                    } else {
                        0usize
                    }),
                forall|q: int| 0 <= q < it.stack().len() ==> reaches(ns, root, #[trigger] it.stack()[q].0 as int),
                forall|q: int| 0 <= q < n && #[trigger] it.visited()[q] ==> reaches(ns, root, q),
                forall|v: int, c: int|
                    0 <= v < n && it.visited()[v] && #[trigger] is_operand(ns[v], c) ==> it.visited()[c]
                        || on_stack(it.stack(), c),
                it.visited()[root] || on_stack(it.stack(), root),
            ensures
                self.indices@.len() == n,
                ns == nodes@,
                forall|q: int|
                    0 <= q < n ==> #[trigger] self.indices@[q] == (reaches(ns, root, q), if reaches(
                        ns,
                        root,
                        q,
                    ) {
                        1usize
                    } else {
                        0usize
                    }),
            decreases 3 * fresh_count(it.visited()) + it.stack().len(),
        {
            let ghost st = it.stack();
            let ghost vis = it.visited();
            proof {
                lemma_top_fresh(st, vis);
            }
            match it.next() {
                None => {
                    proof {
                        let vis2 = it.visited();
                        assert(it.stack().len() == 0);
                        assert(vis2 == vis);
                        assert forall|q: int| 0 <= q < n implies #[trigger] vis2[q] == reaches(ns, root, q) by {
                            if reaches(ns, root, q) {
                                lemma_closed_holds_subtree(ns, vis2, root, q);
                            }
                        }
                        assert forall|q: int| 0 <= q < n implies #[trigger] self.indices@[q] == (reaches(ns, root, q), if reaches(ns, root, q) {
                            1usize
                        } else {
                            0usize
                        }) by {
                            assert(vis2[q] == reaches(ns, root, q));
                        }
                    }
                    break;
                },
                Some((index, _)) => {
                    self.indices.set(index, (true, 1));
                    proof {
                        let j = pop_point(st, vis, true);
                        let i = index as int;
                        let ch = pushed_children(ns, ns[i], NodeOrdering::Original);
                        let st2 = it.stack();
                        let vis2 = it.visited();
                        assert(st[j].0 == index);
                        assert(st2 == st.take(j) + frames(ch, index));
                        assert(node_topo(ns[i], i));
                        lemma_fresh_count_visit(vis, i);
                        assert(st2.len() <= st.len() + 1);
                        assert forall|q: int| 0 <= q < n implies #[trigger] self.indices@[q] == (vis2[q], if vis2[q] {
                            1usize
                        } else {
                            0usize
                        }) by {}
                        assert forall|q: int| 0 <= q < st2.len() implies reaches(ns, root, #[trigger] st2[q].0 as int) by {
                            if q < j {
                                assert(st2[q] == st[q]);
                            } else {
                                assert(st2[q].0 == ch[q - j]);
                                assert(is_operand(ns[i], ch[q - j] as int));
                                lemma_reaches_operand(ns, root, i, ch[q - j] as int);
                            }
                        }
                        assert forall|v: int, c: int|
                            0 <= v < n && vis2[v] && #[trigger] is_operand(ns[v], c) implies vis2[c] || on_stack(st2, c) by {
                            if v == i {
                                match ns[i] {
                                    Node::Unary(_, a) => {
                                        assert(st2[j].0 == a);
                                    },
                                    Node::Binary(_, l, r) => {
                                        assert(st2[j].0 == r);
                                        assert(st2[j + 1].0 == l);
                                    },
                                    _ => {},
                                }
                            } else if !vis[c] {
                                let q = choose|q: int| 0 <= q < st.len() && #[trigger] st[q].0 == c;
                                if q < j {
                                    assert(st2[q] == st[q]);
                                } else if q > j {
                                    assert(vis[st[q].0 as int]);
                                }
                            }
                        }
                        if !vis[root] {
                            let q = choose|q: int| 0 <= q < st.len() && #[trigger] st[q].0 == root;
                            if q < j {
                                assert(st2[q] == st[q]);
                            } else if q > j {
                                assert(vis[st[q].0 as int]);
                            }
                        }
                    }
                },
            }
        }
        let mut sum: usize = 0;
        let mut k: usize = 0;
        while k < n
            invariant
                k <= n,
                n == ns.len(),
                self.indices@.len() == n,
                sum == live_count(ns, root, k as int),
                forall|q: int|
                    0 <= q < k ==> #[trigger] self.indices@[q] == (reaches(ns, root, q), live_count(
                        ns,
                        root,
                        q,
                    ) as usize),
                forall|q: int|
                    k <= q < n ==> #[trigger] self.indices@[q] == (reaches(ns, root, q), if reaches(
                        ns,
                        root,
                        q,
                    ) {
                        1usize
                    } else {
                        0usize
                    }),
            decreases n - k,
        {
            proof {
                lemma_pruned_prefix(ns, root, k as int);
            }
            let (keep, count) = self.indices[k];
            self.indices.set(k, (keep, sum));
            sum = sum + count;
            k = k + 1;
        }
        self.trimmed.clear();
        let mut k: usize = 0;
        while k < n
            invariant
                k <= n,
                n == ns.len(),
                ns == nodes@,
                nodes_topo(ns),
                self.indices@.len() == n,
                forall|q: int|
                    0 <= q < n ==> #[trigger] self.indices@[q] == (reaches(ns, root, q), live_count(
                        ns,
                        root,
                        q,
                    ) as usize),
                self.trimmed@ == pruned_prefix(ns, root, k as int),
            decreases n - k,
        {
            if self.indices[k].0 {
                assert(node_topo(ns[k as int], k as int));
                let kept = match nodes[k] {
                    Node::Constant(v) => Node::Constant(v),
                    Node::Symbol(c) => Node::Symbol(c),
                    Node::Unary(op, a) => Node::Unary(op, self.indices[a].1),
                    Node::Binary(op, l, r) => Node::Binary(op, self.indices[l].1, self.indices[r].1),
                };
                self.trimmed.push(kept);
            }
            k = k + 1;
        }
        std::mem::swap(&mut self.trimmed, &mut nodes);
        nodes
    }
}

/// Where a live node lands in the pruned arena, and what it becomes there.
pub proof fn lemma_pruned_facts(nodes: Seq<Node>, root: int, u: int)
    requires
        nodes_topo(nodes),
        nodes.len() <= usize::MAX,
        0 <= root < nodes.len(),
        0 <= u < nodes.len(),
        reaches(nodes, root, u),
    ensures
        live_count(nodes, root, u) < pruned(nodes, root).len(),
        live_count(nodes, root, u) <= u,
        pruned(nodes, root)[live_count(nodes, root, u) as int] == renumbered(nodes, root, nodes[u]),
        forall|c: int|
            #[trigger] is_operand(nodes[u], c) ==> reaches(nodes, root, c) && 0 <= c < u
                && live_count(nodes, root, c) < live_count(nodes, root, u),
{
    lemma_pruned_prefix(nodes, root, nodes.len() as int);
    lemma_pruned_prefix(nodes, root, u);
    lemma_live_count_strict(nodes, root, u, nodes.len() as int);
    assert(node_topo(nodes[u], u));
    assert forall|c: int| #[trigger] is_operand(nodes[u], c) implies reaches(nodes, root, c) && 0 <= c < u
        && live_count(nodes, root, c) < live_count(nodes, root, u) by {
        lemma_reaches_operand(nodes, root, u, c);
        lemma_live_count_strict(nodes, root, c, u);
    }
}

} // verus!

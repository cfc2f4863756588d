use crate::hash::{all_hashes, hash_nodes};
use crate::helper::{
    compare_walks, eq_recursive, equiv, float_eq, pushed_children, same_shape, DepthWalker,
    NodeOrdering,
};
use crate::prune::{lemma_pruned_wf, live_count, pruned, pruned_prefix, reaches, Trimmer};
use crate::tree::{commutes, denote, node_topo, nodes_topo, nodes_wf, validation, BinaryOp, Node, Tree, TreeError, UnaryOp};
use std::collections::HashMap;
use vstd::prelude::*;

verus! {

/// The least position before `n` whose value is `v`, or `n` if none.
pub open spec fn first_with(hs: Seq<u64>, v: u64, n: int) -> int
    decreases n,
{
    if n <= 0 {
        0
    } else {
        let f = first_with(hs, v, n - 1);
        if f < n - 1 {
            f
        } else if hs[n - 1] == v {
            n - 1
        } else {
            n
        }
    }
}

/// Where references to node `i` are sent: the first node with the same
/// fingerprint, when it is an equivalent subtree; else `i` itself.
pub open spec fn target(nodes: Seq<Node>, i: int) -> int {
    let hs = all_hashes(nodes);
    let f = first_with(hs, hs[i], i);
    if f < i && equiv(nodes, f, nodes, i) {
        f
    } else {
        i
    }
}

/// `n` with each operand sent to its target.
pub open spec fn redirect(nodes: Seq<Node>, n: Node) -> Node {
    match n {
        Node::Unary(op, a) => Node::Unary(op, target(nodes, a as int) as usize),
        Node::Binary(op, l, r) => Node::Binary(
            op,
            target(nodes, l as int) as usize,
            target(nodes, r as int) as usize,
        ),
        _ => n,
    }
}

/// The arena after hash-consing: same length, operands redirected.
pub open spec fn deduplicated(nodes: Seq<Node>) -> Seq<Node> {
    Seq::new(nodes.len(), |k: int| redirect(nodes, nodes[k]))
}

pub(crate) proof fn lemma_first_with(hs: Seq<u64>, v: u64, n: int)
    requires
        0 <= n,
    ensures
        0 <= first_with(hs, v, n) <= n,
        first_with(hs, v, n) < n ==> hs[first_with(hs, v, n)] == v,
    decreases n,
{
    if n > 0 {
        lemma_first_with(hs, v, n - 1);
    }
}

proof fn lemma_target(nodes: Seq<Node>, i: int)
    requires
        0 <= i < nodes.len(),
    ensures
        0 <= target(nodes, i) <= i,
{
    let hs = all_hashes(nodes);
    lemma_first_with(hs, hs[i], i);
}

/// Hash-consing keeps the arena's order.
pub proof fn lemma_deduplicated_topo(nodes: Seq<Node>)
    requires
        nodes_topo(nodes),
    ensures
        nodes_topo(deduplicated(nodes)),
        deduplicated(nodes).len() == nodes.len(),
{
    let d = deduplicated(nodes);
    assert forall|k: int| 0 <= k < d.len() implies node_topo(#[trigger] d[k], k) by {
        assert(node_topo(nodes[k], k));
        match nodes[k] {
            Node::Unary(_, a) => {
                lemma_target(nodes, a as int);
            },
            Node::Binary(_, l, r) => {
                lemma_target(nodes, l as int);
                lemma_target(nodes, r as int);
            },
            _ => {},
        }
    }
}

/// Buffers for hash-consing, kept across runs.
pub struct Deduplicater {
    indices: Vec<usize>,
    hashes: Vec<u64>,
    walker1: DepthWalker,
    walker2: DepthWalker,
    hash_to_index: HashMap<u64, usize>,
}

impl Deduplicater {
    pub fn new() -> (r: Deduplicater) {
        Deduplicater {
            indices: vec![],
            hashes: vec![],
            walker1: DepthWalker::new(),
            walker2: DepthWalker::new(),
            hash_to_index: HashMap::new(),
        }
    }

    /// Sends every reference to a subtree to the first equivalent subtree
    /// with the same fingerprint. Nodes left without users stay in place.
    pub fn run(&mut self, nodes: Vec<Node>) -> (r: Vec<Node>)
        requires
            nodes_topo(nodes@),
        ensures
            r@ == deduplicated(nodes@),
            nodes_topo(r@),
    {
        broadcast use vstd::std_specs::hash::group_hash_axioms;

        let mut nodes = nodes;
        let ghost ns = nodes@;
        let n = nodes.len();
        hash_nodes(nodes.as_slice(), &mut self.hashes);
        let ghost hs = all_hashes(ns);
        self.indices.clear();
        let mut k: usize = 0;
        while k < n
            invariant
                k <= n,
                self.indices@ == Seq::new(k as nat, |q: int| q as usize),
                self.hashes@ == hs,
            decreases n - k,
        {
            self.indices.push(k);
            k = k + 1;
            assert(self.indices@ =~= Seq::new(k as nat, |q: int| q as usize));
        }
        self.hash_to_index.clear();
        let mut i: usize = 0;
        while i < n
            invariant
                i <= n,
                n == ns.len(),
                ns == nodes@,
                nodes_topo(ns),
                self.hashes@ == hs,
                hs == all_hashes(ns),
                self.indices@.len() == n,
                forall|q: int| 0 <= q < i ==> #[trigger] self.indices@[q] == target(ns, q) as usize,
                forall|q: int| i <= q < n ==> #[trigger] self.indices@[q] == q as usize,
                forall|v: u64|
                    #[trigger] self.hash_to_index@.contains_key(v) <==> first_with(hs, v, i as int) < i,
                forall|v: u64|
                    #[trigger] self.hash_to_index@.contains_key(v) ==> self.hash_to_index@[v]
                        == first_with(hs, v, i as int) as usize,
            decreases n - i,
        {
            let h = self.hashes[i];
            proof {
                lemma_first_with(hs, h, i as int);
            }
            match self.hash_to_index.get(&h) {
                None => {
                    self.hash_to_index.insert(h, i);
                },
                Some(j) => {
                    let j = *j;
                    if j != i && eq_recursive(
                        nodes.as_slice(),
                        j,
                        i,
                        &mut self.walker1,
                        &mut self.walker2,
                    ) {
                        self.indices.set(i, j);
                    }
                },
            }
            proof {
                assert forall|v: u64| #[trigger]
                    self.hash_to_index@.contains_key(v) <==> first_with(hs, v, i + 1) < i + 1 by {
                    lemma_first_with(hs, v, i as int);
                }
                assert forall|v: u64| #[trigger]
                    self.hash_to_index@.contains_key(v) implies self.hash_to_index@[v]
                        == first_with(hs, v, i + 1) as usize by {
                    lemma_first_with(hs, v, i as int);
                }
            }
            i = i + 1;
        }
        let mut k: usize = 0;
        while k < n
            invariant
                k <= n,
                n == ns.len(),
                nodes@.len() == n,
                nodes_topo(ns),
                self.indices@.len() == n,
                forall|q: int| 0 <= q < n ==> #[trigger] self.indices@[q] == target(ns, q) as usize,
                forall|q: int| 0 <= q < k ==> #[trigger] nodes@[q] == redirect(ns, ns[q]),
                forall|q: int| k <= q < n ==> #[trigger] nodes@[q] == ns[q],
            decreases n - k,
        {
            assert(node_topo(ns[k as int], k as int));
            let updated = match nodes[k] {
                Node::Constant(v) => Node::Constant(v),
                Node::Symbol(c) => Node::Symbol(c),
                Node::Unary(op, a) => Node::Unary(op, self.indices[a]),
                Node::Binary(op, l, r) => Node::Binary(op, self.indices[l], self.indices[r]),
            };
            nodes.set(k, updated);
            k = k + 1;
        }
        proof {
            assert(nodes@ =~= deduplicated(ns));
            lemma_deduplicated_topo(ns);
        }
        nodes
    }
}

/// Whether the subtree at `left` of `lnodes` and the subtree at `right` of
/// `rnodes` denote the same expression, up to the order of the operands of
/// commutative operators (as the deterministic walk orders them).
pub fn equivalent(
    left: usize,
    right: usize,
    lnodes: &[Node],
    rnodes: &[Node],
    lwalker: &mut DepthWalker,
    rwalker: &mut DepthWalker,
) -> (r: bool)
    requires
        nodes_topo(lnodes@),
        nodes_topo(rnodes@),
        left < lnodes@.len(),
        right < rnodes@.len(),
    ensures
        r == equiv(lnodes@, left as int, rnodes@, right as int),
{
    compare_walks(left, right, lnodes, rnodes, false, lwalker, rwalker)
}

impl Tree {
    /// Removes common subtrees: hash-consing, then pruning of the nodes that
    /// no longer hang from the root.
    pub fn deduplicate(self) -> (r: Result<Tree, TreeError>)
        requires
            self.wf(),
        ensures
            r is Ok,
            r->Ok_0@ == pruned(deduplicated(self@), self@.len() - 1),
            r->Ok_0.wf(),
            r->Ok_0@.len() <= self@.len(),
    {
        let mut dedup = Deduplicater::new();
        let mut trimmer = Trimmer::new();
        let mut walker = DepthWalker::new();
        let root_index = self.root_index();
        let ghost before = self@;
        let nodes = dedup.run(self.take_nodes());
        let len = nodes.len();
        let trimmed = trimmer.trim(nodes, root_index, &mut walker);
        proof {
            lemma_pruned_wf(deduplicated(before), root_index as int);
            crate::tree::lemma_validation_ok(trimmed@);
        }
        Tree::from_nodes(trimmed)
    }
}

/// The interpretation of constants gives one value to constants that
/// compare equal as doubles.
pub open spec fn respects_value<V>(cst: spec_fn(u64) -> V) -> bool {
    forall|x: u64, y: u64| float_eq(x, y) ==> #[trigger] cst(x) == #[trigger] cst(y)
}

/// Equivalent subtrees have one meaning under every interpretation whose
/// commutative operators commute and whose constants go by value.
pub proof fn lemma_equiv_denote<V>(
    ln: Seq<Node>,
    i: int,
    rn: Seq<Node>,
    j: int,
    cst: spec_fn(u64) -> V,
    var: spec_fn(char) -> V,
    un: spec_fn(UnaryOp, V) -> V,
    bin: spec_fn(BinaryOp, V, V) -> V,
)
    requires
        nodes_topo(ln),
        nodes_topo(rn),
        0 <= i < ln.len(),
        0 <= j < rn.len(),
        equiv(ln, i, rn, j),
        commutes(bin),
        respects_value(cst),
    ensures
        denote(ln, i, cst, var, un, bin) == denote(rn, j, cst, var, un, bin),
    decreases i,
{
    assert(node_topo(ln[i], i));
    assert(node_topo(rn[j], j));
    match (ln[i], rn[j]) {
        (Node::Unary(_, a), Node::Unary(_, b)) => {
            lemma_equiv_denote(ln, a as int, rn, b as int, cst, var, un, bin);
        },
        (Node::Binary(op, l1, r1), Node::Binary(_, l2, r2)) => {
            let pa = pushed_children(ln, ln[i], NodeOrdering::Deterministic);
            let pb = pushed_children(rn, rn[j], NodeOrdering::Deterministic);
            lemma_equiv_denote(ln, pa[0] as int, rn, pb[0] as int, cst, var, un, bin);
            lemma_equiv_denote(ln, pa[1] as int, rn, pb[1] as int, cst, var, un, bin);
            let d1l = denote(ln, l1 as int, cst, var, un, bin);
            let d1r = denote(ln, r1 as int, cst, var, un, bin);
            let d2l = denote(rn, l2 as int, cst, var, un, bin);
            let d2r = denote(rn, r2 as int, cst, var, un, bin);
            assert(bin(op, d1l, d1r) == bin(op, d1r, d1l) || !op.spec_commutative());
            assert(bin(op, d2l, d2r) == bin(op, d2r, d2l) || !op.spec_commutative());
        },
        _ => {},
    }
}

proof fn lemma_deduplicated_denote<V>(
    nodes: Seq<Node>,
    k: int,
    cst: spec_fn(u64) -> V,
    var: spec_fn(char) -> V,
    un: spec_fn(UnaryOp, V) -> V,
    bin: spec_fn(BinaryOp, V, V) -> V,
)
    requires
        nodes_topo(nodes),
        0 <= k < nodes.len(),
        commutes(bin),
        respects_value(cst),
    ensures
        denote(deduplicated(nodes), k, cst, var, un, bin) == denote(nodes, k, cst, var, un, bin),
    decreases k, 0int,
{
    let d = deduplicated(nodes);
    assert(node_topo(nodes[k], k));
    lemma_deduplicated_topo(nodes);
    match nodes[k] {
        Node::Unary(_, a) => {
            lemma_redirect_denote(nodes, a as int, cst, var, un, bin);
        },
        Node::Binary(_, l, r) => {
            lemma_redirect_denote(nodes, l as int, cst, var, un, bin);
            lemma_redirect_denote(nodes, r as int, cst, var, un, bin);
        },
        _ => {},
    }
}

proof fn lemma_redirect_denote<V>(
    nodes: Seq<Node>,
    c: int,
    cst: spec_fn(u64) -> V,
    var: spec_fn(char) -> V,
    un: spec_fn(UnaryOp, V) -> V,
    bin: spec_fn(BinaryOp, V, V) -> V,
)
    requires
        nodes_topo(nodes),
        0 <= c < nodes.len(),
        commutes(bin),
        respects_value(cst),
    ensures
        denote(deduplicated(nodes), target(nodes, c), cst, var, un, bin) == denote(
            nodes,
            c,
            cst,
            var,
            un,
            bin,
        ),
        0 <= target(nodes, c) <= c,
    decreases c, 1int,
{
    lemma_target(nodes, c);
    let t = target(nodes, c);
    if t < c {
        lemma_deduplicated_denote(nodes, t, cst, var, un, bin);
        lemma_equiv_denote(nodes, t, nodes, c, cst, var, un, bin);
    } else {
        lemma_deduplicated_denote(nodes, c, cst, var, un, bin);
    }
}

proof fn lemma_pruned_denote<V>(
    nodes: Seq<Node>,
    root: int,
    u: int,
    cst: spec_fn(u64) -> V,
    var: spec_fn(char) -> V,
    un: spec_fn(UnaryOp, V) -> V,
    bin: spec_fn(BinaryOp, V, V) -> V,
)
    requires
        nodes_topo(nodes),
        nodes.len() <= usize::MAX,
        0 <= root < nodes.len(),
        0 <= u < nodes.len(),
        reaches(nodes, root, u),
    ensures
        denote(pruned(nodes, root), live_count(nodes, root, u) as int, cst, var, un, bin) == denote(
            nodes,
            u,
            cst,
            var,
            un,
            bin,
        ),
    decreases u,
{
    crate::prune::lemma_pruned_facts(nodes, root, u);
    assert(node_topo(nodes[u], u));
    let p = pruned(nodes, root);
    let mu = live_count(nodes, root, u) as int;
    match nodes[u] {
        Node::Unary(_, a) => {
            assert(crate::prune::is_operand(nodes[u], a as int));
            crate::prune::lemma_pruned_facts(nodes, root, a as int);
            lemma_pruned_denote(nodes, root, a as int, cst, var, un, bin);
            let ma = live_count(nodes, root, a as int);
            assert((ma as usize) as int == ma);
            assert(ma < mu);
        },
        Node::Binary(_, l, r) => {
            assert(crate::prune::is_operand(nodes[u], l as int));
            assert(crate::prune::is_operand(nodes[u], r as int));
            crate::prune::lemma_pruned_facts(nodes, root, l as int);
            crate::prune::lemma_pruned_facts(nodes, root, r as int);
            lemma_pruned_denote(nodes, root, l as int, cst, var, un, bin);
            lemma_pruned_denote(nodes, root, r as int, cst, var, un, bin);
            let ml = live_count(nodes, root, l as int);
            let mr = live_count(nodes, root, r as int);
            assert((ml as usize) as int == ml);
            assert((mr as usize) as int == mr);
        },
        _ => {},
    }
}

/// Deduplication keeps the meaning of a tree: under every interpretation
/// whose commutative operators commute and whose constants go by value,
/// the root of the deduplicated tree denotes what the old root denoted.
pub proof fn lemma_deduplicate_keeps_meaning<V>(
    nodes: Seq<Node>,
    cst: spec_fn(u64) -> V,
    var: spec_fn(char) -> V,
    un: spec_fn(UnaryOp, V) -> V,
    bin: spec_fn(BinaryOp, V, V) -> V,
)
    requires
        nodes_wf(nodes),
        nodes.len() <= usize::MAX,
        commutes(bin),
        respects_value(cst),
    ensures
        ({
            let p = pruned(deduplicated(nodes), nodes.len() - 1);
            denote(p, p.len() - 1, cst, var, un, bin) == denote(
                nodes,
                nodes.len() - 1,
                cst,
                var,
                un,
                bin,
            )
        }),
{
    let root = nodes.len() - 1;
    let d = deduplicated(nodes);
    lemma_deduplicated_topo(nodes);
    lemma_pruned_wf(d, root);
    assert(reaches(d, root, root));
    lemma_pruned_denote(d, root, root, cst, var, un, bin);
    lemma_deduplicated_denote(nodes, root, cst, var, un, bin);
}

} // verus!

verus! {

/// After deduplication every node hangs from the root: the pruning step
/// leaves no dead node behind.
pub proof fn lemma_deduplicate_all_reachable(nodes: Seq<Node>, j: int)
    requires
        nodes_wf(nodes),
        nodes.len() <= usize::MAX,
        0 <= j < pruned(deduplicated(nodes), nodes.len() - 1).len(),
    ensures
        ({
            let p = pruned(deduplicated(nodes), nodes.len() - 1);
            reaches(p, p.len() - 1, j)
        }),
{
    lemma_deduplicated_topo(nodes);
    crate::prune::lemma_pruned_reachable(deduplicated(nodes), nodes.len() - 1, j);
}

} // verus!

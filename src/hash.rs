use crate::helper::{equiv, node_greater, preorder, pushed_children, same_shape, NodeOrdering};
use crate::tree::{composed, node_topo, nodes_topo, nodes_wf, shift_node, BinaryOp, Node, Tree};
use std::collections::hash_map::DefaultHasher;
use std::hash::Hasher;
use vstd::prelude::*;
use vstd::std_specs::hash::DefaultHasherAdditionalSpecFns;

verus! {

/// The eight little-endian bytes of `x`.
pub open spec fn le_bytes(x: u64) -> Seq<u8> {
    Seq::new(8, |k: int| (#[verifier::truncate] (((x >> ((8 * k) as u64)) & 0xffu64) as u8)))
}

/// The two operand hashes in the order they are fed to the hasher: for a
/// commutative operator the smaller first.
pub open spec fn ordered_pair(commutative: bool, a: u64, b: u64) -> (u64, u64) {
    if commutative && a > b {
        (b, a)
    } else {
        (a, b)
    }
}

/// The fingerprint of the subtree at `i`: a constant's bits; otherwise the
/// standard hasher run over the label, or over the operator ordinal and the
/// operands' fingerprints (sorted for a commutative operator).
pub open spec fn node_hash(nodes: Seq<Node>, i: int) -> u64
    decreases i,
{
    if 0 <= i < nodes.len() {
        match nodes[i] {
            Node::Constant(b) => b,
            Node::Symbol(c) => DefaultHasher::spec_finish(seq![le_bytes((c as u32) as u64)]),
            Node::Unary(op, a) => if a < i {
                DefaultHasher::spec_finish(
                    seq![seq![op.spec_index()], le_bytes(node_hash(nodes, a as int))],
                )
            } else {
                0
            },
            Node::Binary(op, l, r) => if l < i && r < i {
                let p = ordered_pair(
                    op.spec_commutative(),
                    node_hash(nodes, l as int),
                    node_hash(nodes, r as int),
                );
                DefaultHasher::spec_finish(seq![seq![op.spec_index()], le_bytes(p.0), le_bytes(p.1)])
            } else {
                0
            },
        }
    } else {
        0
    }
}

pub open spec fn all_hashes(nodes: Seq<Node>) -> Seq<u64> {
    Seq::new(nodes.len(), |i: int| node_hash(nodes, i))
}

fn bytes_of(x: u64) -> (r: Vec<u8>)
    ensures
        r@ == le_bytes(x),
{
    let mut v: Vec<u8> = Vec::new();
    let mut k: u64 = 0;
    while k < 8
        invariant
            k <= 8,
            v@ == le_bytes(x).take(k as int),
        decreases 8 - k,
    {
        let s: u64 = 8 * k;
        let b: u8 = (#[verifier::truncate] (((x >> s) & 0xff) as u8));
        v.push(b);
        k = k + 1;
        assert(v@ =~= le_bytes(x).take(k as int));
    }
    assert(le_bytes(x).take(8) =~= le_bytes(x));
    v
}

/// Writes the fingerprint of every node of `nodes` into `hashbuf`, in one
/// forward pass.
pub fn hash_nodes(nodes: &[Node], hashbuf: &mut Vec<u64>)
    requires
        nodes_topo(nodes@),
    ensures
        final(hashbuf)@ == all_hashes(nodes@),
{
    hashbuf.clear();
    let n = nodes.len();
    let mut index: usize = 0;
    while index < n
        invariant
            n == nodes@.len(),
            index <= n,
            nodes_topo(nodes@),
            hashbuf@ == all_hashes(nodes@).take(index as int),
        decreases n - index,
    {
        assert(node_topo(nodes@[index as int], index as int));
        let hash: u64 = match nodes[index] {
            Node::Constant(value) => value,
            Node::Symbol(label) => {
                let mut s = DefaultHasher::new();
                let b = bytes_of(label as u32 as u64);
                s.write(b.as_slice());
                assert(s@ =~= seq![le_bytes((label as u32) as u64)]);
                s.finish()
            },
            Node::Unary(op, input) => {
                let mut s = DefaultHasher::new();
                let tag: Vec<u8> = vec![op.index()];
                assert(tag@ =~= seq![op.spec_index()]);
                s.write(tag.as_slice());
                assert(hashbuf@[input as int] == node_hash(nodes@, input as int));
                let b = bytes_of(hashbuf[input]);
                s.write(b.as_slice());
                assert(s@ =~= seq![seq![op.spec_index()], le_bytes(node_hash(nodes@, input as int))]);
                s.finish()
            },
            Node::Binary(op, lhs, rhs) => {
                assert(hashbuf@[lhs as int] == node_hash(nodes@, lhs as int));
                assert(hashbuf@[rhs as int] == node_hash(nodes@, rhs as int));
                let mut hash1 = hashbuf[lhs];
                let mut hash2 = hashbuf[rhs];
                if op.is_commutative() && hash1 > hash2 {
                    let t = hash1;
                    hash1 = hash2;
                    hash2 = t;
                }
                let mut s = DefaultHasher::new();
                let tag: Vec<u8> = vec![op.index()];
                assert(tag@ =~= seq![op.spec_index()]);
                s.write(tag.as_slice());
                let b1 = bytes_of(hash1);
                s.write(b1.as_slice());
                let b2 = bytes_of(hash2);
                s.write(b2.as_slice());
                assert(s@ =~= seq![seq![op.spec_index()], le_bytes(hash1), le_bytes(hash2)]);
                s.finish()
            },
        };
        hashbuf.push(hash);
        index = index + 1;
        assert(hashbuf@ =~= all_hashes(nodes@).take(index as int));
    }
    assert(all_hashes(nodes@).take(n as int) =~= all_hashes(nodes@));
}

impl Tree {
    /// The fingerprint of the whole tree; `hashbuf` receives those of all
    /// its nodes.
    pub fn hash(&self, hashbuf: &mut Vec<u64>) -> (r: u64)
        requires
            self.wf(),
        ensures
            final(hashbuf)@ == all_hashes(self@),
            r == node_hash(self@, self@.len() - 1),
    {
        hash_nodes(self.nodes(), hashbuf);
        hashbuf[self.root_index()]
    }
}

} // verus!

verus! {

/// `y` is `x` with the operands of some commutative binary nodes swapped.
pub open spec fn swaps_commutative(x: Seq<Node>, y: Seq<Node>) -> bool {
    &&& x.len() == y.len()
    &&& forall|k: int|
        0 <= k < x.len() ==> #[trigger] y[k] == x[k] || (x[k] is Binary
            && x[k]->Binary_0.spec_commutative() && y[k] == Node::Binary(
            x[k]->Binary_0,
            x[k]->Binary_2,
            x[k]->Binary_1,
        ))
}

/// Swapping the operands of any commutative nodes changes no fingerprint.
pub proof fn lemma_swaps_keep_hashes(x: Seq<Node>, y: Seq<Node>, i: int)
    requires
        nodes_topo(x),
        swaps_commutative(x, y),
        0 <= i < x.len(),
    ensures
        node_hash(y, i) == node_hash(x, i),
    decreases i,
{
    assert(node_topo(x[i], i));
    assert(y[i] == x[i] || x[i] is Binary);
    match x[i] {
        Node::Unary(_, a) => {
            lemma_swaps_keep_hashes(x, y, a as int);
        },
        Node::Binary(_, l, r) => {
            lemma_swaps_keep_hashes(x, y, l as int);
            lemma_swaps_keep_hashes(x, y, r as int);
        },
        _ => {},
    }
}

pub proof fn lemma_node_greater_asym(a: Node, b: Node)
    ensures
        !(node_greater(a, b) && node_greater(b, a)),
{
}

/// At every swapped node, neither operand node ties with the other in the
/// total order of nodes.
pub open spec fn swaps_untied(x: Seq<Node>, y: Seq<Node>) -> bool {
    forall|k: int|
        0 <= k < x.len() && #[trigger] y[k] != x[k] ==> node_greater(
            x[x[k]->Binary_1 as int],
            x[x[k]->Binary_2 as int],
        ) || node_greater(x[x[k]->Binary_2 as int], x[x[k]->Binary_1 as int])
}

/// Swapping the operands of any commutative nodes whose operand nodes do
/// not tie leaves every subtree equivalent to its old self.
pub proof fn lemma_swaps_keep_equiv(x: Seq<Node>, y: Seq<Node>, i: int)
    requires
        nodes_topo(x),
        swaps_commutative(x, y),
        swaps_untied(x, y),
        0 <= i < x.len(),
    ensures
        equiv(x, i, y, i),
    decreases i,
{
    assert(node_topo(x[i], i));
    assert(y[i] == x[i] || x[i] is Binary);
    match x[i] {
        Node::Unary(_, a) => {
            lemma_swaps_keep_equiv(x, y, a as int);
        },
        Node::Binary(_, l, r) => {
            lemma_swaps_keep_equiv(x, y, l as int);
            lemma_swaps_keep_equiv(x, y, r as int);
            lemma_node_greater_asym(x[l as int], x[r as int]);
            assert(y[l as int] == x[l as int] || x[l as int] is Binary);
            assert(y[r as int] == x[r as int] || x[r as int] is Binary);
            assert(node_greater(y[r as int], y[l as int]) == node_greater(x[r as int], x[l as int]));
            assert(node_greater(y[l as int], y[r as int]) == node_greater(x[l as int], x[r as int]));
        },
        _ => {},
    }
}

} // verus!

verus! {

/// Positions `ox..` of `x` and `oy..` of `y` hold `a`, each rebased there.
pub open spec fn holds_rebased(a: Seq<Node>, x: Seq<Node>, ox: int, y: Seq<Node>, oy: int) -> bool {
    &&& 0 <= ox
    &&& 0 <= oy
    &&& ox + a.len() <= x.len()
    &&& oy + a.len() <= y.len()
    &&& forall|q: int| 0 <= q < a.len() ==> #[trigger] x[q + ox] == shift_node(a[q], ox)
    &&& forall|q: int| 0 <= q < a.len() ==> #[trigger] y[q + oy] == shift_node(a[q], oy)
}

proof fn lemma_rebased_equiv(a: Seq<Node>, x: Seq<Node>, ox: int, y: Seq<Node>, oy: int, i: int)
    requires
        nodes_topo(a),
        holds_rebased(a, x, ox, y, oy),
        x.len() <= usize::MAX,
        y.len() <= usize::MAX,
        0 <= i < a.len(),
    ensures
        equiv(x, i + ox, y, i + oy),
    decreases i,
{
    assert(node_topo(a[i], i));
    assert(x[i + ox] == shift_node(a[i], ox));
    assert(y[i + oy] == shift_node(a[i], oy));
    match a[i] {
        Node::Unary(_, c) => {
            lemma_rebased_equiv(a, x, ox, y, oy, c as int);
        },
        Node::Binary(_, l, r) => {
            assert(x[l + ox] == shift_node(a[l as int], ox));
            assert(y[l + oy] == shift_node(a[l as int], oy));
            assert(x[r + ox] == shift_node(a[r as int], ox));
            assert(y[r + oy] == shift_node(a[r as int], oy));
            lemma_rebased_equiv(a, x, ox, y, oy, l as int);
            lemma_rebased_equiv(a, x, ox, y, oy, r as int);
        },
        _ => {},
    }
}

/// The deterministic walks of `a op b` and `b op a`, for a commutative
/// operator and operand roots that do not tie in the total order of
/// nodes, go in lockstep over nodes of equal shape: the two roots are
/// equivalent.
pub proof fn lemma_deterministic_walks_agree(a: Seq<Node>, b: Seq<Node>, op: BinaryOp)
    requires
        nodes_wf(a),
        nodes_wf(b),
        op.spec_commutative(),
        a.len() + b.len() < usize::MAX,
        node_greater(a.last(), b.last()) || node_greater(b.last(), a.last()),
    ensures
        equiv(
            composed(a, b, op),
            (a.len() + b.len()) as int,
            composed(b, a, op),
            (a.len() + b.len()) as int,
        ),
{
    let x = composed(a, b, op);
    let y = composed(b, a, op);
    let n = a.len() + b.len();
    assert forall|q: int| 0 <= q < a.len() implies #[trigger] x[q + 0] == shift_node(a[q], 0) by {
        assert(node_topo(a[q], q));
    }
    assert forall|q: int| 0 <= q < a.len() implies #[trigger] y[q + b.len()] == shift_node(a[q], b.len() as int) by {}
    assert forall|q: int| 0 <= q < b.len() implies #[trigger] x[q + a.len()] == shift_node(b[q], a.len() as int) by {}
    assert forall|q: int| 0 <= q < b.len() implies #[trigger] y[q + 0] == shift_node(b[q], 0) by {
        assert(node_topo(b[q], q));
    }
    assert(holds_rebased(a, x, 0, y, b.len() as int));
    assert(holds_rebased(b, x, a.len() as int, y, 0));
    lemma_rebased_equiv(a, x, 0, y, b.len() as int, a.len() - 1);
    lemma_rebased_equiv(b, x, a.len() as int, y, 0, b.len() - 1);
    lemma_node_greater_asym(a.last(), b.last());
    assert(x[a.len() - 1] == shift_node(a.last(), 0));
    assert(y[b.len() + a.len() - 1] == shift_node(a.last(), b.len() as int));
    assert(x[a.len() + b.len() - 1] == shift_node(b.last(), a.len() as int));
    assert(y[b.len() - 1] == shift_node(b.last(), 0));
}


proof fn lemma_rebased_hash(a: Seq<Node>, x: Seq<Node>, ox: int, i: int)
    requires
        nodes_topo(a),
        0 <= ox,
        ox + a.len() <= x.len(),
        x.len() <= usize::MAX,
        forall|q: int| 0 <= q < a.len() ==> #[trigger] x[q + ox] == shift_node(a[q], ox),
        0 <= i < a.len(),
    ensures
        node_hash(x, i + ox) == node_hash(a, i),
    decreases i,
{
    assert(node_topo(a[i], i));
    assert(x[i + ox] == shift_node(a[i], ox));
    match a[i] {
        Node::Unary(_, c) => {
            lemma_rebased_hash(a, x, ox, c as int);
        },
        Node::Binary(_, l, r) => {
            lemma_rebased_hash(a, x, ox, l as int);
            lemma_rebased_hash(a, x, ox, r as int);
        },
        _ => {},
    }
}

/// `a op b` and `b op a` have the same fingerprint when `op` is
/// commutative.
pub proof fn lemma_composed_hash_commutes(a: Seq<Node>, b: Seq<Node>, op: BinaryOp)
    requires
        nodes_wf(a),
        nodes_wf(b),
        op.spec_commutative(),
        a.len() + b.len() < usize::MAX,
    ensures
        node_hash(composed(a, b, op), (a.len() + b.len()) as int) == node_hash(
            composed(b, a, op),
            (a.len() + b.len()) as int,
        ),
{
    let x = composed(a, b, op);
    let y = composed(b, a, op);
    assert forall|q: int| 0 <= q < a.len() implies #[trigger] x[q + 0] == shift_node(a[q], 0) by {
        assert(node_topo(a[q], q));
    }
    assert forall|q: int| 0 <= q < a.len() implies #[trigger] y[q + b.len()] == shift_node(a[q], b.len() as int) by {}
    assert forall|q: int| 0 <= q < b.len() implies #[trigger] x[q + a.len()] == shift_node(b[q], a.len() as int) by {}
    assert forall|q: int| 0 <= q < b.len() implies #[trigger] y[q + 0] == shift_node(b[q], 0) by {
        assert(node_topo(b[q], q));
    }
    lemma_rebased_hash(a, x, 0, a.len() - 1);
    lemma_rebased_hash(a, y, b.len() as int, a.len() - 1);
    lemma_rebased_hash(b, x, a.len() as int, b.len() - 1);
    lemma_rebased_hash(b, y, 0, b.len() - 1);
}

} // verus!

verus! {

/// Two walk sequences visit nodes of the same shapes, one for one.
pub open spec fn shapes_match(
    x: Seq<Node>,
    sx: Seq<(usize, Option<usize>)>,
    y: Seq<Node>,
    sy: Seq<(usize, Option<usize>)>,
) -> bool {
    &&& sx.len() == sy.len()
    &&& forall|k: int| 0 <= k < sx.len() ==> same_shape(x[#[trigger] sx[k].0 as int], y[sy[k].0 as int])
}

proof fn lemma_shapes_match_concat(
    x: Seq<Node>,
    a: Seq<(usize, Option<usize>)>,
    b: Seq<(usize, Option<usize>)>,
    y: Seq<Node>,
    c: Seq<(usize, Option<usize>)>,
    d: Seq<(usize, Option<usize>)>,
)
    requires
        shapes_match(x, a, y, c),
        shapes_match(x, b, y, d),
    ensures
        shapes_match(x, a + b, y, c + d),
{
    assert forall|k: int| 0 <= k < (a + b).len() implies same_shape(x[#[trigger] (a + b)[k].0 as int], y[(c + d)[k].0 as int]) by {
        if k < a.len() {
            assert((a + b)[k] == a[k]);
            assert((c + d)[k] == c[k]);
        } else {
            assert((a + b)[k] == b[k - a.len()]);
            assert((c + d)[k] == d[k - a.len()]);
        }
    }
}

/// Equivalent subtrees are walked, in the deterministic order, over nodes
/// of the same shapes one for one.
pub proof fn lemma_equiv_walks_match(
    x: Seq<Node>,
    i: int,
    px: Option<usize>,
    y: Seq<Node>,
    j: int,
    py: Option<usize>,
)
    requires
        nodes_topo(x),
        nodes_topo(y),
        0 <= i < x.len(),
        0 <= j < y.len(),
        x.len() <= usize::MAX,
        y.len() <= usize::MAX,
        equiv(x, i, y, j),
    ensures
        shapes_match(
            x,
            preorder(x, i, px, NodeOrdering::Deterministic),
            y,
            preorder(y, j, py, NodeOrdering::Deterministic),
        ),
    decreases i,
{
    assert(node_topo(x[i], i));
    assert(node_topo(y[j], j));
    let det = NodeOrdering::Deterministic;
    let pa = pushed_children(x, x[i], det);
    let pb = pushed_children(y, y[j], det);
    let hx: Seq<(usize, Option<usize>)> = seq![(i as usize, px)];
    let hy: Seq<(usize, Option<usize>)> = seq![(j as usize, py)];
    assert(shapes_match(x, hx, y, hy));
    match (x[i], y[j]) {
        (Node::Unary(_, a), Node::Unary(_, b)) => {
            lemma_equiv_walks_match(x, a as int, Some(i as usize), y, b as int, Some(j as usize));
            lemma_shapes_match_concat(
                x,
                hx,
                preorder(x, a as int, Some(i as usize), det),
                y,
                hy,
                preorder(y, b as int, Some(j as usize), det),
            );
        },
        (Node::Binary(_, _, _), Node::Binary(_, _, _)) => {
            lemma_equiv_walks_match(x, pa[1] as int, Some(i as usize), y, pb[1] as int, Some(j as usize));
            lemma_equiv_walks_match(x, pa[0] as int, Some(i as usize), y, pb[0] as int, Some(j as usize));
            let x1 = preorder(x, pa[1] as int, Some(i as usize), det);
            let x0 = preorder(x, pa[0] as int, Some(i as usize), det);
            let y1 = preorder(y, pb[1] as int, Some(j as usize), det);
            let y0 = preorder(y, pb[0] as int, Some(j as usize), det);
            lemma_shapes_match_concat(x, x1, x0, y, y1, y0);
            lemma_shapes_match_concat(x, hx, x1 + x0, y, hy, y1 + y0);
        },
        _ => {
            assert(preorder(x, i, px, det) =~= hx);
            assert(preorder(y, j, py, det) =~= hy);
        },
    }
}

/// The deterministic walks of `a op b` and `b op a`, for a commutative
/// operator whose operand roots do not tie in the total order of nodes,
/// yield sequences of equal length whose nodes have the same shapes one
/// for one.
pub proof fn lemma_deterministic_walk_sequences_agree(a: Seq<Node>, b: Seq<Node>, op: BinaryOp)
    requires
        nodes_wf(a),
        nodes_wf(b),
        op.spec_commutative(),
        a.len() + b.len() < usize::MAX,
        node_greater(a.last(), b.last()) || node_greater(b.last(), a.last()),
    ensures
        shapes_match(
            composed(a, b, op),
            preorder(composed(a, b, op), (a.len() + b.len()) as int, None, NodeOrdering::Deterministic),
            composed(b, a, op),
            preorder(composed(b, a, op), (a.len() + b.len()) as int, None, NodeOrdering::Deterministic),
        ),
{
    lemma_deterministic_walks_agree(a, b, op);
    crate::tree::lemma_composed_wf(a, b, op);
    crate::tree::lemma_composed_wf(b, a, op);
    lemma_equiv_walks_match(
        composed(a, b, op),
        (a.len() + b.len()) as int,
        None,
        composed(b, a, op),
        (a.len() + b.len()) as int,
        None,
    );
}

} // verus!

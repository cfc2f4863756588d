use crate::dedup::{deduplicated, first_with, lemma_first_with, target};
use crate::hash::{all_hashes, node_hash};
use crate::helper::{equiv, pushed_children, subtree_size, NodeOrdering};
use crate::prune::{
    is_operand, lemma_live_count_mono, lemma_live_count_strict, lemma_live_preimage,
    lemma_pruned_facts, lemma_pruned_prefix, lemma_pruned_reachable, lemma_pruned_wf, live_count,
    pruned, pruned_prefix, reaches, renumbered,
};
use crate::tree::{node_topo, nodes_topo, nodes_wf, Node};
use vstd::prelude::*;

verus! {

proof fn lemma_first_with_least(hs: Seq<u64>, v: u64, n: int, j: int)
    requires
        0 <= j < n,
        hs[j] == v,
    ensures
        first_with(hs, v, n) <= j,
    decreases n,
{
    if j < n - 1 {
        lemma_first_with_least(hs, v, n - 1, j);
    } else {
        lemma_first_with(hs, v, n - 1);
    }
}

proof fn lemma_target_basics(nodes: Seq<Node>, c: int)
    requires
        0 <= c < nodes.len(),
    ensures
        0 <= target(nodes, c) <= c,
        all_hashes(nodes)[target(nodes, c)] == all_hashes(nodes)[c],
        target(nodes, c) != c ==> equiv(nodes, target(nodes, c), nodes, c),
        target(nodes, target(nodes, c)) == target(nodes, c),
{
    let hs = all_hashes(nodes);
    lemma_first_with(hs, hs[c], c);
    let f = target(nodes, c);
    if f != c {
        lemma_first_with(hs, hs[f], f);
        let g = first_with(hs, hs[f], f);
        if g < f {
            lemma_first_with_least(hs, hs[c], c, g);
        }
    }
}

/// Hash-consing keeps every fingerprint.
proof fn lemma_dedup_hash(nodes: Seq<Node>, k: int)
    requires
        nodes_topo(nodes),
        0 <= k < nodes.len(),
    ensures
        node_hash(deduplicated(nodes), k) == node_hash(nodes, k),
    decreases k,
{
    assert(node_topo(nodes[k], k));
    match nodes[k] {
        Node::Unary(_, a) => {
            lemma_target_basics(nodes, a as int);
            lemma_dedup_hash(nodes, target(nodes, a as int));
        },
        Node::Binary(_, l, r) => {
            lemma_target_basics(nodes, l as int);
            lemma_target_basics(nodes, r as int);
            lemma_dedup_hash(nodes, target(nodes, l as int));
            lemma_dedup_hash(nodes, target(nodes, r as int));
        },
        _ => {},
    }
}

/// Pruning keeps the fingerprint of every live node.
proof fn lemma_pruned_hash(nodes: Seq<Node>, root: int, u: int)
    requires
        nodes_topo(nodes),
        nodes.len() <= usize::MAX,
        0 <= root < nodes.len(),
        0 <= u < nodes.len(),
        reaches(nodes, root, u),
    ensures
        node_hash(pruned(nodes, root), live_count(nodes, root, u) as int) == node_hash(nodes, u),
    decreases u,
{
    lemma_pruned_facts(nodes, root, u);
    assert(node_topo(nodes[u], u));
    match nodes[u] {
        Node::Unary(_, a) => {
            assert(is_operand(nodes[u], a as int));
            lemma_pruned_facts(nodes, root, a as int);
            lemma_pruned_hash(nodes, root, a as int);
        },
        Node::Binary(_, l, r) => {
            assert(is_operand(nodes[u], l as int));
            assert(is_operand(nodes[u], r as int));
            lemma_pruned_facts(nodes, root, l as int);
            lemma_pruned_facts(nodes, root, r as int);
            lemma_pruned_hash(nodes, root, l as int);
            lemma_pruned_hash(nodes, root, r as int);
        },
        _ => {},
    }
}

/// Equivalent subtrees have equal sizes.
proof fn lemma_equiv_size(ln: Seq<Node>, i: int, rn: Seq<Node>, j: int)
    requires
        nodes_topo(ln),
        nodes_topo(rn),
        0 <= i < ln.len(),
        0 <= j < rn.len(),
        equiv(ln, i, rn, j),
    ensures
        subtree_size(ln, i) == subtree_size(rn, j),
    decreases i,
{
    assert(node_topo(ln[i], i));
    assert(node_topo(rn[j], j));
    match (ln[i], rn[j]) {
        (Node::Unary(_, a), Node::Unary(_, b)) => {
            lemma_equiv_size(ln, a as int, rn, b as int);
        },
        (Node::Binary(_, _, _), Node::Binary(_, _, _)) => {
            let pa = pushed_children(ln, ln[i], NodeOrdering::Deterministic);
            let pb = pushed_children(rn, rn[j], NodeOrdering::Deterministic);
            lemma_equiv_size(ln, pa[0] as int, rn, pb[0] as int);
            lemma_equiv_size(ln, pa[1] as int, rn, pb[1] as int);
        },
        _ => {},
    }
}

proof fn lemma_size_target(nodes: Seq<Node>, c: int)
    requires
        nodes_topo(nodes),
        0 <= c < nodes.len(),
    ensures
        subtree_size(deduplicated(nodes), target(nodes, c)) == subtree_size(nodes, c),
        0 <= target(nodes, c) <= c,
    decreases c, 1int,
{
    lemma_target_basics(nodes, c);
    let t = target(nodes, c);
    lemma_dedup_size_at(nodes, t);
    if t != c {
        lemma_equiv_size(nodes, t, nodes, c);
    }
}

proof fn lemma_dedup_size_at(nodes: Seq<Node>, k: int)
    requires
        nodes_topo(nodes),
        0 <= k < nodes.len(),
    ensures
        subtree_size(deduplicated(nodes), k) == subtree_size(nodes, k),
    decreases k, 0int,
{
    assert(node_topo(nodes[k], k));
    match nodes[k] {
        Node::Unary(_, a) => {
            lemma_size_target(nodes, a as int);
        },
        Node::Binary(_, l, r) => {
            lemma_size_target(nodes, l as int);
            lemma_size_target(nodes, r as int);
        },
        _ => {},
    }
}

/// A node strictly inside a subtree is smaller than it.
proof fn lemma_reach_size(nodes: Seq<Node>, from: int, to: int)
    requires
        nodes_topo(nodes),
        0 <= from < nodes.len(),
        reaches(nodes, from, to),
        from != to,
    ensures
        subtree_size(nodes, to) < subtree_size(nodes, from),
    decreases from,
{
    assert(node_topo(nodes[from], from));
    match nodes[from] {
        Node::Unary(_, a) => {
            if a != to {
                lemma_reach_size(nodes, a as int, to);
            }
        },
        Node::Binary(_, l, r) => {
            if l < from && reaches(nodes, l as int, to) {
                if l != to {
                    lemma_reach_size(nodes, l as int, to);
                }
            } else {
                if r != to {
                    lemma_reach_size(nodes, r as int, to);
                }
            }
        },
        _ => {},
    }
}

/// A node strictly inside a subtree is the operand of some node.
proof fn lemma_reached_is_operand(nodes: Seq<Node>, from: int, u: int) -> (v: int)
    requires
        nodes_topo(nodes),
        0 <= from < nodes.len(),
        reaches(nodes, from, u),
        from != u,
    ensures
        0 <= v < nodes.len(),
        is_operand(nodes[v], u),
    decreases from,
{
    assert(node_topo(nodes[from], from));
    match nodes[from] {
        Node::Unary(_, a) => {
            if a == u {
                from
            } else {
                lemma_reached_is_operand(nodes, a as int, u)
            }
        },
        Node::Binary(_, l, r) => {
            if l < from && reaches(nodes, l as int, u) {
                if l == u {
                    from
                } else {
                    lemma_reached_is_operand(nodes, l as int, u)
                }
            } else {
                if r == u {
                    from
                } else {
                    lemma_reached_is_operand(nodes, r as int, u)
                }
            }
        },
        _ => from,
    }
}

/// No two subtrees that differ (are not equivalent) share a fingerprint.
pub open spec fn no_collisions(nodes: Seq<Node>) -> bool {
    forall|a: int, b: int|
        0 <= a < nodes.len() && 0 <= b < nodes.len() && #[trigger] node_hash(nodes, a) == #[trigger] node_hash(
            nodes,
            b,
        ) ==> equiv(nodes, a, nodes, b)
}

/// Without collisions, the live nodes after hash-consing carry pairwise
/// different fingerprints.
proof fn lemma_live_distinct(nodes: Seq<Node>, u1: int, u2: int)
    requires
        nodes_wf(nodes),
        no_collisions(nodes),
        0 <= u1 < u2 < nodes.len(),
        reaches(deduplicated(nodes), nodes.len() - 1, u1),
        reaches(deduplicated(nodes), nodes.len() - 1, u2),
    ensures
        node_hash(deduplicated(nodes), u1) != node_hash(deduplicated(nodes), u2),
{
    let e = deduplicated(nodes);
    let root = nodes.len() - 1;
    let hs = all_hashes(nodes);
    crate::dedup::lemma_deduplicated_topo(nodes);
    lemma_dedup_hash(nodes, u1);
    lemma_dedup_hash(nodes, u2);
    if node_hash(e, u1) == node_hash(e, u2) {
        assert(equiv(nodes, u1, nodes, u2));
        if u2 == root {
            crate::prune::lemma_reaches_below(e, root, u1);
            lemma_equiv_size(nodes, u1, nodes, u2);
            lemma_dedup_size_at(nodes, u1);
            lemma_dedup_size_at(nodes, u2);
            lemma_reach_size(e, root, u1);
        } else {
            let v = lemma_reached_is_operand(e, root, u2);
            assert(node_topo(nodes[v], v));
            match nodes[v] {
                Node::Unary(_, a) => {
                    lemma_target_basics(nodes, a as int);
                },
                Node::Binary(_, l, r) => {
                    lemma_target_basics(nodes, l as int);
                    lemma_target_basics(nodes, r as int);
                },
                _ => {},
            }
            assert(target(nodes, u2) == u2);
            assert(hs[u1] == hs[u2]);
            lemma_first_with_least(hs, hs[u2], u2, u1);
            lemma_first_with(hs, hs[u2], u2);
            let f = first_with(hs, hs[u2], u2);
            assert(node_hash(nodes, f) == node_hash(nodes, u2));
            assert(equiv(nodes, f, nodes, u2));
        }
    }
}

/// Deduplicating an arena whose fingerprints are pairwise different and
/// all of whose nodes hang from the last one changes nothing.
proof fn lemma_clean_arena_fixed(d: Seq<Node>)
    requires
        nodes_wf(d),
        d.len() <= usize::MAX,
        forall|i: int, j: int|
            0 <= i < j < d.len() ==> #[trigger] node_hash(d, i) != #[trigger] node_hash(d, j),
        forall|j: int| 0 <= j < d.len() ==> #[trigger] reaches(d, d.len() - 1, j),
    ensures
        pruned(deduplicated(d), d.len() - 1) == d,
{
    let hs = all_hashes(d);
    assert forall|i: int| 0 <= i < d.len() implies #[trigger] target(d, i) == i by {
        lemma_first_with(hs, hs[i], i);
        let f = first_with(hs, hs[i], i);
        if f < i {
            assert(node_hash(d, f) != node_hash(d, i));
        }
    }
    assert(deduplicated(d) =~= d) by {
        assert forall|k: int| 0 <= k < d.len() implies #[trigger] deduplicated(d)[k] == d[k] by {
            assert(node_topo(d[k], k));
            match d[k] {
                Node::Unary(_, a) => {
                    assert(target(d, a as int) == a);
                },
                Node::Binary(_, l, r) => {
                    assert(target(d, l as int) == l);
                    assert(target(d, r as int) == r);
                },
                _ => {},
            }
        }
    }
    lemma_all_live_count(d, d.len() as int);
    lemma_all_live_pruned(d, d.len() as int);
}

proof fn lemma_all_live_count(d: Seq<Node>, n: int)
    requires
        0 <= n <= d.len(),
        forall|j: int| 0 <= j < d.len() ==> #[trigger] reaches(d, d.len() - 1, j),
    ensures
        forall|k: int| 0 <= k <= n ==> #[trigger] live_count(d, d.len() - 1, k) == k,
    decreases n,
{
    if n > 0 {
        lemma_all_live_count(d, n - 1);
        assert(reaches(d, d.len() - 1, n - 1));
        assert(live_count(d, d.len() - 1, n) == live_count(d, d.len() - 1, n - 1) + 1);
    } else {
        assert(live_count(d, d.len() - 1, 0) == 0);
    }
}

proof fn lemma_all_live_pruned(d: Seq<Node>, n: int)
    requires
        nodes_topo(d),
        d.len() <= usize::MAX,
        0 <= n <= d.len(),
        forall|j: int| 0 <= j < d.len() ==> #[trigger] reaches(d, d.len() - 1, j),
        forall|k: int| 0 <= k <= d.len() ==> #[trigger] live_count(d, d.len() - 1, k) == k,
    ensures
        pruned_prefix(d, d.len() - 1, n) == d.take(n),
    decreases n,
{
    if n > 0 {
        lemma_all_live_pruned(d, n - 1);
        let k = n - 1;
        assert(reaches(d, d.len() - 1, k));
        assert(node_topo(d[k], k));
        match d[k] {
            Node::Unary(_, a) => {
                assert(live_count(d, d.len() - 1, a as int) == a);
            },
            Node::Binary(_, l, r) => {
                assert(live_count(d, d.len() - 1, l as int) == l);
                assert(live_count(d, d.len() - 1, r as int) == r);
            },
            _ => {},
        }
        assert(renumbered(d, d.len() - 1, d[k]) == d[k]);
        assert(d.take(n) =~= d.take(n - 1).push(d[k]));
    } else {
        assert(d.take(0) =~= Seq::<Node>::empty());
    }
}

/// Deduplication is idempotent: on a tree in which no two subtrees that
/// differ share a fingerprint, deduplicating the result again gives back
/// the very same arena (so the same length and the same value).
pub proof fn lemma_deduplicate_idempotent(nodes: Seq<Node>)
    requires
        nodes_wf(nodes),
        nodes.len() <= usize::MAX,
        no_collisions(nodes),
    ensures
        ({
            let d = pruned(deduplicated(nodes), nodes.len() - 1);
            pruned(deduplicated(d), d.len() - 1) == d
        }),
{
    let e = deduplicated(nodes);
    let root = nodes.len() - 1;
    crate::dedup::lemma_deduplicated_topo(nodes);
    lemma_pruned_wf(e, root);
    let d = pruned(e, root);
    lemma_pruned_prefix(e, root, nodes.len() as int);
    assert forall|j: int| 0 <= j < d.len() implies #[trigger] reaches(d, d.len() - 1, j) by {
        lemma_pruned_reachable(e, root, j);
    }
    assert forall|i: int, j: int| 0 <= i < j < d.len() implies #[trigger] node_hash(d, i) != #[trigger] node_hash(d, j) by {
        let ui = lemma_live_preimage(e, root, nodes.len() as int, i);
        let uj = lemma_live_preimage(e, root, nodes.len() as int, j);
        if uj <= ui {
            lemma_live_count_mono(e, root, uj, ui);
        }
        lemma_pruned_hash(e, root, ui);
        lemma_pruned_hash(e, root, uj);
        lemma_live_distinct(nodes, ui, uj);
    }
    lemma_clean_arena_fixed(d);
}

} // verus!

use crate::tree::{nodes_topo, node_topo, BinaryOp, Node, Tree, UnaryOp};
use vstd::prelude::*;

verus! {

impl UnaryOp {
    pub open spec fn spec_index(self) -> u8 {
        match self {
            UnaryOp::Negate => 0,
            UnaryOp::Sqrt => 1,
            UnaryOp::Abs => 2,
            UnaryOp::Sin => 3,
            UnaryOp::Cos => 4,
            UnaryOp::Tan => 5,
            UnaryOp::Log => 6,
            UnaryOp::Exp => 7,
        }
    }

    /// The ordinal of the operator, used to order nodes.
    pub fn index(&self) -> (r: u8)
        ensures
            r == self.spec_index(),
    {
        match self {
            UnaryOp::Negate => 0,
            UnaryOp::Sqrt => 1,
            UnaryOp::Abs => 2,
            UnaryOp::Sin => 3,
            UnaryOp::Cos => 4,
            UnaryOp::Tan => 5,
            UnaryOp::Log => 6,
            UnaryOp::Exp => 7,
        }
    }
}

impl BinaryOp {
    pub open spec fn spec_index(self) -> u8 {
        match self {
            BinaryOp::Add => 0,
            BinaryOp::Subtract => 1,
            BinaryOp::Multiply => 2,
            BinaryOp::Divide => 3,
            BinaryOp::Pow => 4,
            BinaryOp::Min => 5,
            BinaryOp::Max => 6,
        }
    }

    /// The ordinal of the operator, used to order nodes.
    pub fn index(&self) -> (r: u8)
        ensures
            r == self.spec_index(),
    {
        match self {
            BinaryOp::Add => 0,
            BinaryOp::Subtract => 1,
            BinaryOp::Multiply => 2,
            BinaryOp::Divide => 3,
            BinaryOp::Pow => 4,
            BinaryOp::Min => 5,
            BinaryOp::Max => 6,
        }
    }
}

pub const SIGN_BIT: u64 = 0x8000_0000_0000_0000;

pub const MAGNITUDE_BITS: u64 = 0x7fff_ffff_ffff_ffff;

pub const EXPONENT_BITS: u64 = 0x7ff0_0000_0000_0000;

pub const FRACTION_BITS: u64 = 0x000f_ffff_ffff_ffff;

/// The double with bit pattern `b` is a NaN.
pub open spec fn is_nan(b: u64) -> bool {
    b & EXPONENT_BITS == EXPONENT_BITS && b & FRACTION_BITS != 0
}

/// A number that orders non-NaN doubles as their values do: the magnitude,
/// negated for a set sign bit (so both zeros get 0).
pub open spec fn float_key(b: u64) -> int {
    if b & SIGN_BIT != 0 {
        -((b & MAGNITUDE_BITS) as int)
    } else {
        (b & MAGNITUDE_BITS) as int
    }
}

/// `a < b` on the doubles with these bit patterns.
pub open spec fn float_lt(a: u64, b: u64) -> bool {
    !is_nan(a) && !is_nan(b) && float_key(a) < float_key(b)
}

/// `a == b` on the doubles with these bit patterns.
pub open spec fn float_eq(a: u64, b: u64) -> bool {
    !is_nan(a) && !is_nan(b) && float_key(a) == float_key(b)
}

pub open spec fn kind_rank(n: Node) -> int {
    match n {
        Node::Constant(_) => 0,
        Node::Symbol(_) => 1,
        Node::Unary(_, _) => 2,
        Node::Binary(_, _, _) => 3,
    }
}

/// The total order of nodes, by content only: constants before symbols
/// before unary before binary nodes; then by value, label or operator
/// ordinal. Operands are not looked at.
pub open spec fn node_greater(a: Node, b: Node) -> bool {
    if kind_rank(a) != kind_rank(b) {
        kind_rank(a) > kind_rank(b)
    } else {
        match (a, b) {
            (Node::Constant(x), Node::Constant(y)) => float_lt(y, x),
            (Node::Symbol(c), Node::Symbol(d)) => (c as u32) > (d as u32),
            (Node::Unary(o, _), Node::Unary(p, _)) => o.spec_index() > p.spec_index(),
            (Node::Binary(o, _, _), Node::Binary(p, _, _)) => o.spec_index() > p.spec_index(),
            _ => false,
        }
    }
}

fn check_nan(b: u64) -> (r: bool)
    ensures
        r == is_nan(b),
{
    b & EXPONENT_BITS == EXPONENT_BITS && b & FRACTION_BITS != 0
}

fn float_less(a: u64, b: u64) -> (r: bool)
    ensures
        r == float_lt(a, b),
{
    if check_nan(a) || check_nan(b) {
        return false;
    }
    let ma = a & MAGNITUDE_BITS;
    let mb = b & MAGNITUDE_BITS;
    let na = a & SIGN_BIT != 0;
    let nb = b & SIGN_BIT != 0;
    if na && nb {
        ma > mb
    } else if na {
        ma > 0 || mb > 0
    } else if nb {
        false
    } else {
        ma < mb
    }
}

fn float_equal(a: u64, b: u64) -> (r: bool)
    ensures
        r == float_eq(a, b),
{
    if check_nan(a) || check_nan(b) {
        return false;
    }
    let ma = a & MAGNITUDE_BITS;
    let mb = b & MAGNITUDE_BITS;
    let na = a & SIGN_BIT != 0;
    let nb = b & SIGN_BIT != 0;
    if na == nb {
        ma == mb
    } else {
        ma == 0 && mb == 0
    }
}

fn rank_of(n: &Node) -> (r: u8)
    ensures
        r as int == kind_rank(*n),
{
    match n {
        Node::Constant(_) => 0,
        Node::Symbol(_) => 1,
        Node::Unary(_, _) => 2,
        Node::Binary(_, _, _) => 3,
    }
}

/// Whether `a` comes after `b` in the total order of nodes.
pub fn greater(a: &Node, b: &Node) -> (r: bool)
    ensures
        r == node_greater(*a, *b),
{
    let ra = rank_of(a);
    let rb = rank_of(b);
    if ra != rb {
        return ra > rb;
    }
    match (a, b) {
        (Node::Constant(x), Node::Constant(y)) => float_less(*y, *x),
        (Node::Symbol(c), Node::Symbol(d)) => (*c as u32) > (*d as u32),
        (Node::Unary(o, _), Node::Unary(p, _)) => o.index() > p.index(),
        (Node::Binary(o, _, _), Node::Binary(p, _, _)) => o.index() > p.index(),
        _ => false,
    }
}

/// Whether two nodes have the same content, operands aside: constants of
/// equal value (or of the very same bits), equal labels, equal operators.
pub open spec fn same_shape(a: Node, b: Node) -> bool {
    match (a, b) {
        (Node::Constant(x), Node::Constant(y)) => x == y || float_eq(x, y),
        (Node::Symbol(c), Node::Symbol(d)) => c == d,
        (Node::Unary(o, _), Node::Unary(p, _)) => o == p,
        (Node::Binary(o, _, _), Node::Binary(p, _, _)) => o == p,
        _ => false,
    }
}

pub fn shape_matches(a: &Node, b: &Node) -> (r: bool)
    ensures
        r == same_shape(*a, *b),
{
    match (a, b) {
        (Node::Constant(x), Node::Constant(y)) => *x == *y || float_equal(*x, *y),
        (Node::Symbol(c), Node::Symbol(d)) => *c == *d,
        (Node::Unary(o, _), Node::Unary(p, _)) => *o == *p,
        (Node::Binary(o, _, _), Node::Binary(p, _, _)) => *o == *p,
        _ => false,
    }
}

/// How the two operands of a binary node are ordered during a walk.
#[derive(Debug, Copy, Clone, PartialEq, Eq, Structural)]
pub enum NodeOrdering {
    /// Left operand first.
    Original,
    /// For a commutative operator, the operand that is greater in the
    /// total order of nodes first; ties and other operators as `Original`.
    Deterministic,
}

/// The operands of `n`, in the order in which a walk pushes them on its
/// stack: the last one is visited first.
pub open spec fn pushed_children(nodes: Seq<Node>, n: Node, ordering: NodeOrdering) -> Seq<usize> {
    match n {
        Node::Unary(_, i) => seq![i],
        Node::Binary(op, l, r) => if ordering == NodeOrdering::Deterministic
            && op.spec_commutative() && node_greater(nodes[r as int], nodes[l as int]) {
            seq![l, r]
        } else {
            seq![r, l]
        },
        _ => seq![],
    }
}

pub open spec fn frames(children: Seq<usize>, parent: usize) -> Seq<(usize, Option<usize>)> {
    children.map_values(|c: usize| (c, Some(parent)))
}

/// The highest position of the stack that holds a node not visited yet,
/// or -1.
pub open spec fn top_fresh(st: Seq<(usize, Option<usize>)>, visited: Seq<bool>) -> int
    decreases st.len(),
{
    if st.len() == 0 {
        -1
    } else if !visited[st.last().0 as int] {
        st.len() - 1
    } else {
        top_fresh(st.drop_last(), visited)
    }
}

/// The position of the frame that the next step of a walk yields, or -1.
pub open spec fn pop_point(st: Seq<(usize, Option<usize>)>, visited: Seq<bool>, unique: bool) -> int {
    if unique {
        top_fresh(st, visited)
    } else {
        st.len() - 1
    }
}

pub proof fn lemma_top_fresh(st: Seq<(usize, Option<usize>)>, visited: Seq<bool>)
    ensures
        -1 <= top_fresh(st, visited) < st.len(),
        top_fresh(st, visited) >= 0 ==> !visited[st[top_fresh(st, visited)].0 as int],
        forall|q: int|
            top_fresh(st, visited) < q < st.len() ==> #[trigger] visited[st[q].0 as int],
    decreases st.len(),
{
    if st.len() > 0 && visited[st.last().0 as int] {
        lemma_top_fresh(st.drop_last(), visited);
        assert forall|q: int| top_fresh(st, visited) < q < st.len() implies #[trigger] visited[st[q].0 as int] by {
            if q < st.len() - 1 {
                assert(st.drop_last()[q] == st[q]);
            }
        }
    }
}

proof fn lemma_top_fresh_at(st: Seq<(usize, Option<usize>)>, visited: Seq<bool>, m: int)
    requires
        -1 <= m < st.len(),
        m >= 0 ==> !visited[st[m].0 as int],
        forall|q: int| m < q < st.len() ==> #[trigger] visited[st[q].0 as int],
    ensures
        top_fresh(st, visited) == m,
    decreases st.len(),
{
    if st.len() > 0 && m < st.len() - 1 {
        assert(visited[st[st.len() - 1].0 as int]);
        let d = st.drop_last();
        assert forall|q: int| m < q < d.len() implies #[trigger] visited[d[q].0 as int] by {
            assert(d[q] == st[q]);
        }
        lemma_top_fresh_at(d, visited, m);
    }
}

/// Reusable buffers for depth-first walks: a stack of (node, parent) frames
/// and a visited flag per node.
pub struct DepthWalker {
    stack: Vec<(usize, Option<usize>)>,
    visited: Vec<bool>,
}

impl DepthWalker {
    pub fn new() -> (r: DepthWalker) {
        DepthWalker { stack: vec![], visited: vec![] }
    }

    /// Starts a walk of `tree` from its root.
    pub fn walk_tree<'a>(&'a mut self, tree: &'a Tree, unique: bool, ordering: NodeOrdering) -> (r:
        DepthIterator<'a>)
        requires
            tree.wf(),
        ensures
            r.inv(),
            r.nodes() == tree@,
            r.stack() == seq![((tree@.len() - 1) as usize, None::<usize>)],
            r.visited() == Seq::new(tree@.len(), |k: int| false),
            r.unique() == unique,
            r.ordering() == ordering,
            r.last_pushed() == 0,
    {
        self.walk_nodes(tree.nodes(), tree.root_index(), unique, ordering)
    }

    /// Starts a walk of `nodes` from `root_index`. With `unique` a node is
    /// yielded at most once.
    pub fn walk_nodes<'a>(
        &'a mut self,
        nodes: &'a [Node],
        root_index: usize,
        unique: bool,
        ordering: NodeOrdering,
    ) -> (r: DepthIterator<'a>)
        requires
            nodes_topo(nodes@),
            root_index < nodes@.len(),
        ensures
            r.inv(),
            r.nodes() == nodes@,
            r.stack() == seq![(root_index, None::<usize>)],
            r.visited() == Seq::new(nodes@.len(), |k: int| false),
            r.unique() == unique,
            r.ordering() == ordering,
            r.last_pushed() == 0,
    {
        self.stack.clear();
        self.stack.push((root_index, None));
        self.visited.clear();
        let n = nodes.len();
        let mut k: usize = 0;
        while k < n
            invariant
                k <= n,
                n == nodes@.len(),
                self.visited@ == Seq::new(k as nat, |q: int| false),
                self.stack@ == seq![(root_index, None::<usize>)],
            decreases n - k,
        {
            self.visited.push(false);
            k = k + 1;
            assert(self.visited@ =~= Seq::new(k as nat, |q: int| false));
        }
        DepthIterator { unique, ordering, last_pushed: 0, walker: self, nodes }
    }
}

/// A depth-first walk in progress, yielding (node, parent) pairs in
/// pre-order.
pub struct DepthIterator<'a> {
    unique: bool,
    ordering: NodeOrdering,
    last_pushed: usize,
    walker: &'a mut DepthWalker,
    nodes: &'a [Node],
}

impl<'a> DepthIterator<'a> {
    pub closed spec fn stack(&self) -> Seq<(usize, Option<usize>)> {
        self.walker.stack@
    }

    pub closed spec fn visited(&self) -> Seq<bool> {
        self.walker.visited@
    }

    pub closed spec fn nodes(&self) -> Seq<Node> {
        self.nodes@
    }

    pub closed spec fn unique(&self) -> bool {
        self.unique
    }

    pub closed spec fn ordering(&self) -> NodeOrdering {
        self.ordering
    }

    /// How many frames the last step pushed.
    pub closed spec fn last_pushed(&self) -> nat {
        self.last_pushed as nat
    }

    pub open spec fn inv(&self) -> bool {
        &&& nodes_topo(self.nodes())
        &&& self.visited().len() == self.nodes().len()
        &&& forall|q: int| 0 <= q < self.stack().len() ==> #[trigger] self.stack()[q].0 < self.nodes().len()
        &&& self.last_pushed() <= self.stack().len()
    }

    /// One step of the walk. It pops the top frame (with `unique`, the top
    /// frame of a node not yet visited, dropping those above it), marks its
    /// node visited, pushes the node's operands in the walk's order and
    /// yields the frame; `None` once no such frame is left.
    pub fn next(&mut self) -> (r: Option<(usize, Option<usize>)>)
        requires
            old(self).inv(),
        ensures
            final(self).inv(),
            final(self).nodes() == old(self).nodes(),
            final(self).unique() == old(self).unique(),
            final(self).ordering() == old(self).ordering(),
            ({
                let j = pop_point(old(self).stack(), old(self).visited(), old(self).unique());
                if j < 0 {
                    &&& r is None
                    &&& final(self).stack() == Seq::<(usize, Option<usize>)>::empty()
                    &&& final(self).visited() == old(self).visited()
                } else {
                    let f = old(self).stack()[j];
                    let ch = pushed_children(old(self).nodes(), old(self).nodes()[f.0 as int], old(self).ordering());
                    &&& r == Some(f)
                    &&& final(self).stack() == old(self).stack().take(j) + frames(ch, f.0)
                    &&& final(self).visited() == old(self).visited().update(f.0 as int, true)
                    &&& final(self).last_pushed() == ch.len()
                }
            }),
    {
        proof {
            lemma_top_fresh(self.stack(), self.visited());
        }
        let ghost st0 = self.stack();
        let ghost vis0 = self.visited();
        let ghost nodes = self.nodes@;
        let (mut index, mut parent) = match self.walker.stack.pop() {
            None => {
                self.last_pushed = 0;
                return None;
            },
            Some(f) => f,
        };
        assert(self.walker.stack@ =~= st0.take(self.walker.stack@.len() as int));
        assert(st0[self.walker.stack@.len() as int].0 < nodes.len());
        while self.unique && self.walker.visited[index]
            invariant
                self.walker.visited@ == vis0,
                self.nodes@ == nodes,
                self.nodes == old(self).nodes,
                self.unique == old(self).unique,
                self.ordering == old(self).ordering,
                self.walker.stack@.len() < st0.len(),
                self.walker.stack@ == st0.take(self.walker.stack@.len() as int),
                (index, parent) == st0[self.walker.stack@.len() as int],
                index < nodes.len(),
                forall|q: int| self.walker.stack@.len() < q < st0.len() ==> #[trigger] vis0[st0[q].0 as int],
                self.unique ==> st0.len() > 0,
                nodes_topo(nodes),
                st0 == old(self).stack(),
                vis0 == old(self).visited(),
                nodes == old(self).nodes(),
                !self.unique ==> self.walker.stack@.len() == st0.len() - 1,
                vis0.len() == nodes.len(),
                forall|q: int| 0 <= q < st0.len() ==> #[trigger] st0[q].0 < nodes.len(),
            decreases self.walker.stack@.len(),
        {
            let ghost m = self.walker.stack@.len() as int;
            match self.walker.stack.pop() {
                None => {
                    proof {
                        assert(vis0[st0[0].0 as int]);
                        lemma_top_fresh_at(st0, vis0, -1);
                    }
                    self.last_pushed = 0;
                    return None;
                },
                Some(f) => {
                    index = f.0;
                    parent = f.1;
                },
            }
            assert(st0[self.walker.stack@.len() as int].0 < nodes.len());
            assert(self.walker.stack@ =~= st0.take(self.walker.stack@.len() as int));
        }
        let ghost j = self.walker.stack@.len() as int;
        proof {
            if self.unique {
                lemma_top_fresh_at(st0, vis0, j);
            }
        }
        match self.nodes[index] {
            Node::Constant(_) | Node::Symbol(_) => {
                self.last_pushed = 0;
            },
            Node::Unary(_, input) => {
                self.walker.stack.push((input, Some(index)));
                self.last_pushed = 1;
            },
            Node::Binary(op, lhs, rhs) => {
                let swap = self.ordering == NodeOrdering::Deterministic && op.is_commutative()
                    && greater(&self.nodes[rhs], &self.nodes[lhs]);
                if swap {
                    self.walker.stack.push((lhs, Some(index)));
                    self.walker.stack.push((rhs, Some(index)));
                } else {
                    self.walker.stack.push((rhs, Some(index)));
                    self.walker.stack.push((lhs, Some(index)));
                }
                self.last_pushed = 2;
            },
        }
        self.walker.visited.set(index, true);
        proof {
            let ch = pushed_children(nodes, nodes[index as int], self.ordering);
            assert(node_topo(nodes[index as int], index as int));
            assert(self.walker.stack@ =~= st0.take(j) + frames(ch, index));
            assert(j == pop_point(st0, vis0, self.unique));
            assert(st0[j] == (index, parent));
            assert(self.last_pushed == ch.len());
        }
        Some((index, parent))
    }

    /// Drops the operands that the last step pushed, so that the walk
    /// does not descend below the node it just yielded.
    pub fn skip_children(&mut self)
        requires
            old(self).inv(),
        ensures
            final(self).inv(),
            final(self).nodes() == old(self).nodes(),
            final(self).unique() == old(self).unique(),
            final(self).ordering() == old(self).ordering(),
            final(self).visited() == old(self).visited(),
            final(self).stack() == old(self).stack().take(
                old(self).stack().len() - old(self).last_pushed(),
            ),
            final(self).last_pushed() == 0,
    {
        let mut k: usize = 0;
        while k < self.last_pushed
            invariant
                self.last_pushed <= old(self).stack().len(),
                k <= self.last_pushed,
                self.walker.stack@ == old(self).stack().take(old(self).stack().len() - k),
                self.walker.visited@ == old(self).visited(),
                self.nodes == old(self).nodes,
                self.unique == old(self).unique,
                self.ordering == old(self).ordering,
                self.last_pushed == old(self).last_pushed,
            decreases self.last_pushed - k,
        {
            self.walker.stack.pop();
            k = k + 1;
            assert(self.walker.stack@ =~= old(self).stack().take(old(self).stack().len() - k));
        }
        self.last_pushed = 0;
    }
}

/// The number of nodes in the subtree at `i`, shared operands counted once
/// per use.
pub open spec fn subtree_size(nodes: Seq<Node>, i: int) -> nat
    decreases i,
{
    if 0 <= i < nodes.len() {
        match nodes[i] {
            Node::Unary(_, a) => if a < i {
                1 + subtree_size(nodes, a as int)
            } else {
                1
            },
            Node::Binary(_, a, b) => if a < i && b < i {
                1 + subtree_size(nodes, a as int) + subtree_size(nodes, b as int)
            } else {
                1
            },
            _ => 1,
        }
    } else {
        1
    }
}

/// The work left in a walk that does not skip visited nodes.
pub open spec fn stack_size(nodes: Seq<Node>, st: Seq<(usize, Option<usize>)>) -> nat
    decreases st.len(),
{
    if st.len() == 0 {
        0
    } else {
        stack_size(nodes, st.drop_last()) + subtree_size(nodes, st.last().0 as int)
    }
}

/// The subtree at `i` of `ln` and the subtree at `j` of `rn` denote the
/// same expression once the operands of each commutative node are put in
/// the walk's deterministic order: equal shapes, and operands that pair up
/// in that order equivalent in turn.
pub open spec fn equiv(ln: Seq<Node>, i: int, rn: Seq<Node>, j: int) -> bool
    decreases i,
{
    &&& same_shape(ln[i], rn[j])
    &&& match (ln[i], rn[j]) {
        (Node::Unary(_, a), Node::Unary(_, b)) => a < i && equiv(ln, a as int, rn, b as int),
        (Node::Binary(_, _, _), Node::Binary(_, _, _)) => {
            let pa = pushed_children(ln, ln[i], NodeOrdering::Deterministic);
            let pb = pushed_children(rn, rn[j], NodeOrdering::Deterministic);
            &&& pa[0] < i
            &&& pa[1] < i
            &&& equiv(ln, pa[1] as int, rn, pb[1] as int)
            &&& equiv(ln, pa[0] as int, rn, pb[0] as int)
        },
        _ => true,
    }
}

/// Each pair of frames at the same height of two stacks holds equivalent
/// subtrees.
pub open spec fn stacks_equiv(
    ln: Seq<Node>,
    ls: Seq<(usize, Option<usize>)>,
    rn: Seq<Node>,
    rs: Seq<(usize, Option<usize>)>,
) -> bool {
    &&& ls.len() == rs.len()
    &&& forall|q: int| 0 <= q < ls.len() ==> equiv(ln, #[trigger] ls[q].0 as int, rn, rs[q].0 as int)
}

/// Equivalence is reflexive.
pub proof fn lemma_equiv_refl(nodes: Seq<Node>, i: int)
    requires
        nodes_topo(nodes),
        0 <= i < nodes.len(),
    ensures
        equiv(nodes, i, nodes, i),
    decreases i,
{
    assert(node_topo(nodes[i], i));
    match nodes[i] {
        Node::Constant(_) => {},
        Node::Symbol(_) => {},
        Node::Unary(_, a) => {
            lemma_equiv_refl(nodes, a as int);
        },
        Node::Binary(_, l, r) => {
            lemma_equiv_refl(nodes, l as int);
            lemma_equiv_refl(nodes, r as int);
        },
    }
}

proof fn lemma_stack_size_step(
    nodes: Seq<Node>,
    st: Seq<(usize, Option<usize>)>,
    ch: Seq<usize>,
    parent: usize,
)
    requires
        nodes_topo(nodes),
        st.len() > 0,
        parent == st.last().0,
        parent < nodes.len(),
        ch == pushed_children(nodes, nodes[parent as int], NodeOrdering::Deterministic)
            || ch == pushed_children(nodes, nodes[parent as int], NodeOrdering::Original),
    ensures
        stack_size(nodes, st.take(st.len() - 1) + frames(ch, parent)) + 1 == stack_size(nodes, st),
{
    let base = st.take(st.len() - 1);
    assert(base =~= st.drop_last());
    assert(node_topo(nodes[parent as int], parent as int));
    let f = frames(ch, parent);
    if ch.len() == 1 {
        assert((base + f).drop_last() =~= base);
        assert((base + f).last() == f[0]);
    } else if ch.len() == 2 {
        assert((base + f).drop_last() =~= base.push(f[0]));
        assert(base.push(f[0]).drop_last() =~= base);
        assert((base + f).last() == f[1]);
        assert(base.push(f[0]).last() == f[0]);
        assert(stack_size(nodes, base.push(f[0])) == stack_size(nodes, base) + subtree_size(nodes, ch[0] as int));
        assert(stack_size(nodes, base + f) == stack_size(nodes, base.push(f[0])) + subtree_size(nodes, ch[1] as int));
        match nodes[parent as int] {
            Node::Binary(_, l, r) => {
                assert(subtree_size(nodes, parent as int) == 1 + subtree_size(nodes, l as int) + subtree_size(nodes, r as int));
            },
            _ => {},
        }
    } else {
        assert(base + f =~= base);
    }
}

/// Walks the subtrees at `left` and `right` in lockstep and compares node
/// shapes. Where `same` says that both sides are one arena, a pair of
/// identical positions is taken as equal without descending.
pub(crate) fn compare_walks(
    left: usize,
    right: usize,
    lnodes: &[Node],
    rnodes: &[Node],
    same: bool,
    lwalker: &mut DepthWalker,
    rwalker: &mut DepthWalker,
) -> (r: bool)
    requires
        nodes_topo(lnodes@),
        nodes_topo(rnodes@),
        left < lnodes@.len(),
        right < rnodes@.len(),
        same ==> lnodes@ == rnodes@,
    ensures
        r == equiv(lnodes@, left as int, rnodes@, right as int),
{
    let ghost ln = lnodes@;
    let ghost rn = rnodes@;
    let mut liter = lwalker.walk_nodes(lnodes, left, false, NodeOrdering::Deterministic);
    let mut riter = rwalker.walk_nodes(rnodes, right, false, NodeOrdering::Deterministic);
    let ghost goal = equiv(ln, left as int, rn, right as int);
    assert(liter.stack()[0].0 == left);
    assert(riter.stack()[0].0 == right);
    assert(goal == stacks_equiv(ln, liter.stack(), rn, riter.stack()));
    loop
        invariant
            liter.inv(),
            riter.inv(),
            liter.nodes() == ln,
            riter.nodes() == rn,
            !liter.unique(),
            !riter.unique(),
            liter.ordering() == NodeOrdering::Deterministic,
            riter.ordering() == NodeOrdering::Deterministic,
            liter.stack().len() == riter.stack().len(),
            goal == stacks_equiv(ln, liter.stack(), rn, riter.stack()),
            goal == equiv(ln, left as int, rn, right as int),
            ln == lnodes@,
            rn == rnodes@,
            nodes_topo(ln),
            nodes_topo(rn),
            same ==> ln == rn,
        decreases stack_size(ln, liter.stack()),
    {
        let ghost ls = liter.stack();
        let ghost rs = riter.stack();
        let ghost n = ls.len();
        let lnext = liter.next();
        let rnext = riter.next();
        match (lnext, rnext) {
            (None, None) => {
                assert(pop_point(ls, liter.visited(), false) < 0);
                assert(n == 0);
                assert(stacks_equiv(ln, ls, rn, rs));
                return true;
            },
            (None, Some(_)) | (Some(_), None) => {
                return false;
            },
            (Some((li, _)), Some((ri, _))) => {
                let ghost pa = pushed_children(ln, ln[li as int], NodeOrdering::Deterministic);
                let ghost pb = pushed_children(rn, rn[ri as int], NodeOrdering::Deterministic);
                proof {
                    assert(ls[n - 1].0 < ln.len());
                    assert(rs[n - 1].0 < rn.len());
                    lemma_stack_size_step(ln, ls, pa, li);
                    assert(node_topo(ln[li as int], li as int));
                    assert(node_topo(rn[ri as int], ri as int));
                    assert(ls[n - 1].0 == li);
                    assert(rs[n - 1].0 == ri);
                }
                if same && li == ri {
                    liter.skip_children();
                    riter.skip_children();
                    proof {
                        lemma_equiv_refl(ln, li as int);
                        assert(liter.stack() =~= ls.take(n - 1));
                        assert(riter.stack() =~= rs.take(n - 1));
                        let lt = ls.take(n - 1);
                        let rt = rs.take(n - 1);
                        if stacks_equiv(ln, ls, rn, rs) {
                            assert forall|q: int| 0 <= q < lt.len() implies equiv(
                                ln,
                                #[trigger] lt[q].0 as int,
                                rn,
                                rt[q].0 as int,
                            ) by {
                                assert(lt[q] == ls[q]);
                                assert(rt[q] == rs[q]);
                                assert(equiv(ln, ls[q].0 as int, rn, rs[q].0 as int));
                            }
                        }
                        if stacks_equiv(ln, lt, rn, rt) {
                            assert forall|q: int| 0 <= q < ls.len() implies equiv(
                                ln,
                                #[trigger] ls[q].0 as int,
                                rn,
                                rs[q].0 as int,
                            ) by {
                                if q < n - 1 {
                                    assert(lt[q] == ls[q]);
                                    assert(rt[q] == rs[q]);
                                    assert(equiv(ln, lt[q].0 as int, rn, rt[q].0 as int));
                                }
                            }
                        }
                        assert(stacks_equiv(ln, ls, rn, rs) == stacks_equiv(
                            ln,
                            liter.stack(),
                            rn,
                            riter.stack(),
                        ));
                        assert(stack_size(ln, liter.stack()) < stack_size(ln, ls)) by {
                            assert(ls.take(n - 1) =~= ls.drop_last());
                        }
                    }
                    continue;
                }
                if !shape_matches(&lnodes[li], &rnodes[ri]) {
                    proof {
                        assert(!equiv(ln, ls[n - 1].0 as int, rn, rs[n - 1].0 as int));
                    }
                    return false;
                }
                proof {
                    let ls2 = liter.stack();
                    let rs2 = riter.stack();
                    assert(ls2 == ls.take(n - 1) + frames(pa, li));
                    assert(rs2 == rs.take(n - 1) + frames(pb, ri));
                    assert(ls2.len() == rs2.len());
                    assert forall|q: int| 0 <= q < n - 1 implies ls2[q] == ls[q] && rs2[q] == rs[q] by {}
                    if stacks_equiv(ln, ls, rn, rs) {
                        assert(equiv(ln, ls[n - 1].0 as int, rn, rs[n - 1].0 as int));
                        assert forall|q: int| 0 <= q < ls2.len() implies equiv(
                            ln,
                            #[trigger] ls2[q].0 as int,
                            rn,
                            rs2[q].0 as int,
                        ) by {
                            if q < n - 1 {
                                assert(equiv(ln, ls[q].0 as int, rn, rs[q].0 as int));
                            }
                        }
                    } else if stacks_equiv(ln, ls2, rn, rs2) {
                        assert forall|q: int| 0 <= q < ls.len() implies equiv(
                            ln,
                            #[trigger] ls[q].0 as int,
                            rn,
                            rs[q].0 as int,
                        ) by {
                            if q < n - 1 {
                                assert(equiv(ln, ls2[q].0 as int, rn, rs2[q].0 as int));
                            } else {
                                assert(q == n - 1);
                                if pa.len() == 1 {
                                    assert(equiv(ln, ls2[n - 1].0 as int, rn, rs2[n - 1].0 as int));
                                } else if pa.len() == 2 {
                                    assert(equiv(ln, ls2[n - 1].0 as int, rn, rs2[n - 1].0 as int));
                                    assert(equiv(ln, ls2[n as int].0 as int, rn, rs2[n as int].0 as int));
                                }
                            }
                        }
                    }
                }
            },
        }
    }
}

/// Whether the subtrees at `li` and `ri` of one arena are equivalent.
/// A pair of equal positions met on the way is taken as equal at once.
pub fn eq_recursive(
    nodes: &[Node],
    li: usize,
    ri: usize,
    walker1: &mut DepthWalker,
    walker2: &mut DepthWalker,
) -> (r: bool)
    requires
        nodes_topo(nodes@),
        li < nodes@.len(),
        ri < nodes@.len(),
    ensures
        r == equiv(nodes@, li as int, nodes@, ri as int),
{
    compare_walks(li, ri, nodes, nodes, true, walker1, walker2)
}

} // verus!

verus! {

/// The frames a walk that never skips yields from the frame `(i, parent)`:
/// the node, then the walks of its operands in visiting order.
pub open spec fn preorder(nodes: Seq<Node>, i: int, parent: Option<usize>, ordering: NodeOrdering) -> Seq<(usize, Option<usize>)>
    decreases i,
{
    let ch = pushed_children(nodes, nodes[i], ordering);
    let rest = if ch.len() == 1 && ch[0] < i {
        preorder(nodes, ch[0] as int, Some(i as usize), ordering)
    } else if ch.len() == 2 && ch[0] < i && ch[1] < i {
        preorder(nodes, ch[1] as int, Some(i as usize), ordering) + preorder(
            nodes,
            ch[0] as int,
            Some(i as usize),
            ordering,
        )
    } else {
        Seq::empty()
    };
    seq![(i as usize, parent)] + rest
}

/// What a walk that never skips yields from a whole stack, top first.
pub open spec fn stack_preorder(nodes: Seq<Node>, st: Seq<(usize, Option<usize>)>, ordering: NodeOrdering) -> Seq<(usize, Option<usize>)>
    decreases st.len(),
{
    if st.len() == 0 {
        Seq::empty()
    } else {
        preorder(nodes, st.last().0 as int, st.last().1, ordering) + stack_preorder(nodes, st.drop_last(), ordering)
    }
}

proof fn lemma_stack_preorder_step(
    nodes: Seq<Node>,
    st: Seq<(usize, Option<usize>)>,
    ordering: NodeOrdering,
)
    requires
        nodes_topo(nodes),
        st.len() > 0,
        st.last().0 < nodes.len(),
    ensures
        ({
            let f = st.last();
            let ch = pushed_children(nodes, nodes[f.0 as int], ordering);
            stack_preorder(nodes, st, ordering) == seq![f] + stack_preorder(
                nodes,
                st.take(st.len() - 1) + frames(ch, f.0),
                ordering,
            )
        }),
{
    let f = st.last();
    let i = f.0 as int;
    let ch = pushed_children(nodes, nodes[i], ordering);
    let base = st.take(st.len() - 1);
    assert(base =~= st.drop_last());
    assert(node_topo(nodes[i], i));
    let g = frames(ch, f.0);
    if ch.len() == 1 {
        assert((base + g).drop_last() =~= base);
        assert((base + g).last() == g[0]);
        assert(preorder(nodes, i, f.1, ordering) == seq![f] + preorder(nodes, ch[0] as int, Some(f.0), ordering));
        assert(stack_preorder(nodes, st, ordering) =~= seq![f] + stack_preorder(nodes, base + g, ordering));
    } else if ch.len() == 2 {
        assert((base + g).drop_last() =~= base.push(g[0]));
        assert(base.push(g[0]).drop_last() =~= base);
        assert((base + g).last() == g[1]);
        assert(base.push(g[0]).last() == g[0]);
        assert(g[0] == (ch[0], Some(f.0)));
        assert(g[1] == (ch[1], Some(f.0)));
        let p1 = preorder(nodes, ch[1] as int, Some(f.0), ordering);
        let p0 = preorder(nodes, ch[0] as int, Some(f.0), ordering);
        assert(preorder(nodes, i, f.1, ordering) == seq![f] + (p1 + p0));
        assert(stack_preorder(nodes, base.push(g[0]), ordering) == p0 + stack_preorder(nodes, base, ordering));
        assert(stack_preorder(nodes, base + g, ordering) == p1 + stack_preorder(nodes, base.push(g[0]), ordering));
        assert(stack_preorder(nodes, st, ordering) == preorder(nodes, i, f.1, ordering) + stack_preorder(nodes, base, ordering));
        assert(stack_preorder(nodes, st, ordering) =~= seq![f] + stack_preorder(nodes, base + g, ordering));
    } else {
        assert(base + g =~= base);
        assert(stack_preorder(nodes, st, ordering) =~= seq![f] + stack_preorder(nodes, base + g, ordering));
    }
}

impl Tree {
    /// The (node, parent) pairs of a depth-first walk from the root, left
    /// operand first, shared subtrees visited once per use.
    pub fn depth_first_traverse(&self) -> (r: Vec<(usize, Option<usize>)>)
        requires
            self.wf(),
        ensures
            r@ == preorder(self@, self@.len() - 1, None, NodeOrdering::Original),
    {
        let mut walker = DepthWalker::new();
        let mut out: Vec<(usize, Option<usize>)> = Vec::new();
        let n = self.len();
        let ghost nodes = self@;
        let ghost goal = preorder(nodes, nodes.len() - 1, None, NodeOrdering::Original);
        let mut it = walker.walk_tree(self, false, NodeOrdering::Original);
        assert(stack_preorder(nodes, it.stack(), NodeOrdering::Original) =~= goal) by {
            let st = it.stack();
            assert(st.drop_last() =~= Seq::<(usize, Option<usize>)>::empty());
            assert(stack_preorder(nodes, st.drop_last(), NodeOrdering::Original) == Seq::<(usize, Option<usize>)>::empty());
            assert(st.last() == ((n - 1) as usize, None::<usize>));
        }
        loop
            invariant
                it.inv(),
                it.nodes() == nodes,
                !it.unique(),
                it.ordering() == NodeOrdering::Original,
                nodes_topo(nodes),
                out@ + stack_preorder(nodes, it.stack(), NodeOrdering::Original) == goal,
            ensures
                out@ == goal,
            decreases stack_size(nodes, it.stack()),
        {
            let ghost st = it.stack();
            match it.next() {
                None => {
                    assert(out@ =~= goal);
                    break;
                },
                Some(f) => {
                    proof {
                        let ch = pushed_children(nodes, nodes[f.0 as int], NodeOrdering::Original);
                        assert(st[st.len() - 1].0 < nodes.len());
                        lemma_stack_preorder_step(nodes, st, NodeOrdering::Original);
                        lemma_stack_size_step(nodes, st, ch, f.0);
                        assert(out@.push(f) + stack_preorder(nodes, it.stack(), NodeOrdering::Original) =~= out@
                            + stack_preorder(nodes, st, NodeOrdering::Original));
                    }
                    out.push(f);
                },
            }
        }
        out
    }
}

} // verus!

verus! {

pub open spec fn order_of(a: int, b: int) -> std::cmp::Ordering {
    if a < b {
        std::cmp::Ordering::Less
    } else if a > b {
        std::cmp::Ordering::Greater
    } else {
        std::cmp::Ordering::Equal
    }
}

/// The total order of nodes as a comparison; `None` only between two
/// constants one of which is a NaN.
pub open spec fn node_order(a: Node, b: Node) -> Option<std::cmp::Ordering> {
    if kind_rank(a) != kind_rank(b) {
        Some(order_of(kind_rank(a), kind_rank(b)))
    } else {
        match (a, b) {
            (Node::Constant(x), Node::Constant(y)) => if is_nan(x) || is_nan(y) {
                None
            } else {
                Some(order_of(float_key(x), float_key(y)))
            },
            (Node::Symbol(c), Node::Symbol(d)) => Some(order_of(c as u32 as int, d as u32 as int)),
            (Node::Unary(o, _), Node::Unary(p, _)) => Some(
                order_of(o.spec_index() as int, p.spec_index() as int),
            ),
            (Node::Binary(o, _, _), Node::Binary(p, _, _)) => Some(
                order_of(o.spec_index() as int, p.spec_index() as int),
            ),
            _ => None,
        }
    }
}

fn compare_ints(a: u32, b: u32) -> (r: std::cmp::Ordering)
    ensures
        r == order_of(a as int, b as int),
{
    if a < b {
        std::cmp::Ordering::Less
    } else if a > b {
        std::cmp::Ordering::Greater
    } else {
        std::cmp::Ordering::Equal
    }
}

impl vstd::std_specs::cmp::PartialOrdSpecImpl for Node {
    open spec fn obeys_partial_cmp_spec() -> bool {
        true
    }

    open spec fn partial_cmp_spec(&self, other: &Node) -> Option<std::cmp::Ordering> {
        node_order(*self, *other)
    }
}

impl PartialOrd for Node {
    /// Compares nodes by content only, operands aside.
    fn partial_cmp(&self, other: &Node) -> (r: Option<std::cmp::Ordering>)
        ensures
            r == node_order(*self, *other),
    {
        let ra = rank_of(self);
        let rb = rank_of(other);
        if ra != rb {
            return Some(compare_ints(ra as u32, rb as u32));
        }
        match (self, other) {
            (Node::Constant(x), Node::Constant(y)) => {
                if check_nan(*x) || check_nan(*y) {
                    None
                } else if float_less(*x, *y) {
                    Some(std::cmp::Ordering::Less)
                } else if float_less(*y, *x) {
                    Some(std::cmp::Ordering::Greater)
                } else {
                    Some(std::cmp::Ordering::Equal)
                }
            },
            (Node::Symbol(c), Node::Symbol(d)) => Some(compare_ints(*c as u32, *d as u32)),
            (Node::Unary(o, _), Node::Unary(p, _)) => Some(compare_ints(o.index() as u32, p.index() as u32)),
            (Node::Binary(o, _, _), Node::Binary(p, _, _)) => Some(
                compare_ints(o.index() as u32, p.index() as u32),
            ),
            _ => None,
        }
    }
}

} // verus!

verus! {

/// The depth of every node after the first `n` frames of a walk: a frame
/// with a parent sets its node one deeper than the parent.
pub open spec fn depths_after(frames: Seq<(usize, Option<usize>)>, n: int, len: nat) -> Seq<usize>
    decreases n,
{
    if n <= 0 {
        Seq::new(len, |q: int| 0usize)
    } else {
        let d = depths_after(frames, n - 1, len);
        let f = frames[n - 1];
        match f.1 {
            Some(p) => d.update(f.0 as int, (d[p as int] + 1) as usize),
            None => d,
        }
    }
}

/// Each frame of a walk with the depth its node has when it is yielded.
pub open spec fn layout_of(frames: Seq<(usize, Option<usize>)>, len: nat) -> Seq<(usize, usize)> {
    Seq::new(frames.len(), |k: int| (frames[k].0, depths_after(frames, k + 1, len)[frames[k].0 as int]))
}

proof fn lemma_preorder_bounds(nodes: Seq<Node>, i: int, parent: Option<usize>, ordering: NodeOrdering)
    requires
        nodes_topo(nodes),
        0 <= i < nodes.len(),
        nodes.len() <= usize::MAX,
    ensures
        forall|k: int|
            0 <= k < preorder(nodes, i, parent, ordering).len() ==> {
                let f = #[trigger] preorder(nodes, i, parent, ordering)[k];
                &&& f.0 <= i
                &&& f.1 == parent || (f.1 is Some && f.1->Some_0 <= i)
            },
    decreases i,
{
    let ch = pushed_children(nodes, nodes[i], ordering);
    assert(node_topo(nodes[i], i));
    let p = preorder(nodes, i, parent, ordering);
    if ch.len() == 1 {
        lemma_preorder_bounds(nodes, ch[0] as int, Some(i as usize), ordering);
        let s0 = preorder(nodes, ch[0] as int, Some(i as usize), ordering);
        assert forall|k: int| 0 < k < p.len() implies p[k] == s0[k - 1] by {}
    } else if ch.len() == 2 {
        lemma_preorder_bounds(nodes, ch[0] as int, Some(i as usize), ordering);
        lemma_preorder_bounds(nodes, ch[1] as int, Some(i as usize), ordering);
        let s1 = preorder(nodes, ch[1] as int, Some(i as usize), ordering);
        let s0 = preorder(nodes, ch[0] as int, Some(i as usize), ordering);
        assert forall|k: int| 0 < k < p.len() implies p[k] == (s1 + s0)[k - 1] by {}
        assert forall|k: int| 0 <= k < s1.len() + s0.len() implies (s1 + s0)[k] == if k < s1.len() {
            s1[k]
        } else {
            s0[k - s1.len()]
        } by {}
    }
}

proof fn lemma_depths_bounded(frames: Seq<(usize, Option<usize>)>, n: int, len: nat)
    requires
        0 <= n <= frames.len(),
        forall|k: int| 0 <= k < frames.len() ==> #[trigger] frames[k].0 < len && (frames[k].1 is Some ==> frames[k].1->Some_0 < len),
    ensures
        depths_after(frames, n, len).len() == len,
        forall|q: int| 0 <= q < len ==> #[trigger] depths_after(frames, n, len)[q] <= n,
    decreases n,
{
    if n > 0 {
        lemma_depths_bounded(frames, n - 1, len);
        assert(frames[n - 1].0 < len);
    }
}

impl Tree {
    /// The frames of `depth_first_traverse` with the depth of each node
    /// below the root: what an indented drawing of the tree needs.
    pub fn layout(&self) -> (r: Vec<(usize, usize)>)
        requires
            self.wf(),
        ensures
            r@ == layout_of(preorder(self@, self@.len() - 1, None, NodeOrdering::Original), self@.len()),
    {
        let n = self.len();
        let frames = self.depth_first_traverse();
        let ghost fs = frames@;
        proof {
            lemma_preorder_bounds(self@, n - 1, None, NodeOrdering::Original);
            assert forall|k: int| 0 <= k < fs.len() implies #[trigger] fs[k].0 < n && (fs[k].1 is Some ==> fs[k].1->Some_0 < n) by {
                assert(fs[k] == preorder(self@, n - 1, None, NodeOrdering::Original)[k]);
            }
        }
        let mut depths: Vec<usize> = Vec::new();
        let mut q: usize = 0;
        while q < n
            invariant
                q <= n,
                depths@ == Seq::new(q as nat, |j: int| 0usize),
            decreases n - q,
        {
            depths.push(0);
            q = q + 1;
            assert(depths@ =~= Seq::new(q as nat, |j: int| 0usize));
        }
        assert(depths@ =~= depths_after(fs, 0, n as nat));
        let mut out: Vec<(usize, usize)> = Vec::new();
        let mut k: usize = 0;
        while k < frames.len()
            invariant
                k <= fs.len(),
                fs == frames@,
                n == self@.len(),
                forall|j: int| 0 <= j < fs.len() ==> #[trigger] fs[j].0 < n && (fs[j].1 is Some ==> fs[j].1->Some_0 < n),
                depths@ == depths_after(fs, k as int, n as nat),
                out@ == layout_of(fs, n as nat).take(k as int),
            decreases fs.len() - k,
        {
            proof {
                lemma_depths_bounded(fs, k as int, n as nat);
            }
            let (index, parent) = frames[k];
            assert(fs[k as int].0 < n);
            match parent {
                Some(p) => {
                    let dp = depths[p];
                    depths.set(index, dp + 1);
                },
                None => {},
            }
            out.push((index, depths[index]));
            k = k + 1;
            assert(out@ =~= layout_of(fs, n as nat).take(k as int));
        }
        assert(layout_of(fs, n as nat).take(fs.len() as int) =~= layout_of(fs, n as nat));
        out
    }
}

} // verus!

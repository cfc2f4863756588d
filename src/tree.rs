use vstd::prelude::*;

verus! {

/// Operators that take one operand.
#[derive(Debug, Copy, Clone, PartialEq, Eq, Structural, Hash)]
pub enum UnaryOp {
    Negate,
    Sqrt,
    Abs,
    Sin,
    Cos,
    Tan,
    Log,
    Exp,
}

/// Operators that take two operands.
#[derive(Debug, Copy, Clone, PartialEq, Eq, Structural, Hash)]
pub enum BinaryOp {
    Add,
    Subtract,
    Multiply,
    Divide,
    Pow,
    Min,
    Max,
}

/// One node of an expression arena. A constant holds the bit pattern of an
/// IEEE-754 double (`f64::to_bits`); operands are positions in the arena.
#[derive(Debug, Copy, Clone, PartialEq, Eq, Structural)]
pub enum Node {
    Constant(u64),
    Symbol(char),
    Unary(UnaryOp, usize),
    Binary(BinaryOp, usize, usize),
}

/// Reasons for refusing a node vector as a tree.
#[derive(Debug, Copy, Clone, PartialEq, Eq, Structural)]
pub enum TreeError {
    EmptyTree,
    WrongNodeOrder,
    IndexOutOfRange,
}

impl BinaryOp {
    pub open spec fn spec_commutative(self) -> bool {
        match self {
            BinaryOp::Add | BinaryOp::Multiply | BinaryOp::Min | BinaryOp::Max => true,
            _ => false,
        }
    }

    /// Whether swapping the operands never changes the result.
    pub fn is_commutative(&self) -> (r: bool)
        ensures
            r == self.spec_commutative(),
    {
        match self {
            BinaryOp::Add | BinaryOp::Multiply | BinaryOp::Min | BinaryOp::Max => true,
            _ => false,
        }
    }
}

/// Every operand of `n`, sitting at position `k`, comes before `k`.
pub open spec fn node_topo(n: Node, k: int) -> bool {
    match n {
        Node::Unary(_, i) => i < k,
        Node::Binary(_, l, r) => l < k && r < k,
        _ => true,
    }
}

/// Topological order; it also keeps every operand inside the arena.
pub open spec fn nodes_topo(s: Seq<Node>) -> bool {
    forall|k: int| 0 <= k < s.len() ==> node_topo(#[trigger] s[k], k)
}

/// The invariant of a tree: non-empty and topologically ordered, so that
/// every operand is in bounds and the root, the last node, is last.
pub open spec fn nodes_wf(s: Seq<Node>) -> bool {
    s.len() >= 1 && nodes_topo(s)
}

pub open spec fn is_leaf(n: Node) -> bool {
    n is Constant || n is Symbol
}

/// `n` is no constant holding a NaN, which has no place in the order of
/// nodes.
pub open spec fn not_nan(n: Node) -> bool {
    !(n is Constant && crate::helper::is_nan(n->Constant_0))
}

/// `n` with every operand moved up by `off`.
pub open spec fn shift_node(n: Node, off: int) -> Node {
    match n {
        Node::Unary(op, i) => Node::Unary(op, (i + off) as usize),
        Node::Binary(op, l, r) => Node::Binary(op, (l + off) as usize, (r + off) as usize),
        _ => n,
    }
}

pub open spec fn shift_all(s: Seq<Node>, off: int) -> Seq<Node> {
    s.map_values(|n: Node| shift_node(n, off))
}

/// The nodes of `lhs` then those of `rhs`, rebased, then the new root.
pub open spec fn composed(lhs: Seq<Node>, rhs: Seq<Node>, op: BinaryOp) -> Seq<Node> {
    lhs + shift_all(rhs, lhs.len() as int) + seq![
        Node::Binary(op, (lhs.len() - 1) as usize, (lhs.len() + rhs.len() - 1) as usize),
    ]
}

/// What is wrong with node `n` at position `k` of an arena of `len` nodes.
pub open spec fn node_error(n: Node, k: int, len: int) -> Option<TreeError> {
    match n {
        Node::Unary(_, i) => if i >= len {
            Some(TreeError::IndexOutOfRange)
        } else if i >= k {
            Some(TreeError::WrongNodeOrder)
        } else {
            None
        },
        Node::Binary(_, l, r) => if l >= len || r >= len {
            Some(TreeError::IndexOutOfRange)
        } else if l >= k || r >= k {
            Some(TreeError::WrongNodeOrder)
        } else {
            None
        },
        _ => None,
    }
}

/// The error of the first faulty node among the first `n`, if any.
pub open spec fn first_error(s: Seq<Node>, n: int) -> Option<TreeError>
    decreases n,
{
    if n <= 0 {
        None
    } else {
        match first_error(s, n - 1) {
            Some(e) => Some(e),
            None => node_error(s[n - 1], n - 1, s.len() as int),
        }
    }
}

/// What validating `s` gives: `Ok` exactly for a well-formed arena.
pub open spec fn validation(s: Seq<Node>) -> Result<(), TreeError> {
    if s.len() == 0 {
        Err(TreeError::EmptyTree)
    } else {
        match first_error(s, s.len() as int) {
            Some(e) => Err(e),
            None => Ok(()),
        }
    }
}

proof fn lemma_first_error_none(s: Seq<Node>, n: int)
    requires
        0 <= n <= s.len(),
    ensures
        first_error(s, n) is None <==> forall|k: int| 0 <= k < n ==> node_topo(#[trigger] s[k], k),
    decreases n,
{
    if n > 0 {
        lemma_first_error_none(s, n - 1);
    }
}

/// Validation accepts exactly the well-formed arenas.
pub proof fn lemma_validation_ok(s: Seq<Node>)
    ensures
        validation(s) is Ok <==> nodes_wf(s),
{
    lemma_first_error_none(s, s.len() as int);
}

fn check_node(n: &Node, k: usize, len: usize) -> (r: Option<TreeError>)
    ensures
        r == node_error(*n, k as int, len as int),
{
    match n {
        Node::Unary(_, i) => if *i >= len {
            Some(TreeError::IndexOutOfRange)
        } else if *i >= k {
            Some(TreeError::WrongNodeOrder)
        } else {
            None
        },
        Node::Binary(_, l, r) => if *l >= len || *r >= len {
            Some(TreeError::IndexOutOfRange)
        } else if *l >= k || *r >= k {
            Some(TreeError::WrongNodeOrder)
        } else {
            None
        },
        _ => None,
    }
}

/// An expression: a non-empty arena of nodes in topological order, whose
/// last node is the root.
#[derive(Debug, Clone, PartialEq)]
pub struct Tree {
    nodes: Vec<Node>,
}

impl View for Tree {
    type V = Seq<Node>;

    closed spec fn view(&self) -> Seq<Node> {
        self.nodes@
    }
}

impl Tree {
    pub open spec fn wf(&self) -> bool {
        nodes_wf(self@)
    }

    /// A tree of one leaf.
    pub fn new(node: Node) -> (t: Tree)
        requires
            is_leaf(node),
            not_nan(node),
        ensures
            t@ == seq![node],
            t.wf(),
    {
        let t = Tree { nodes: vec![node] };
        assert(t@ =~= seq![node]);
        t
    }

    pub fn len(&self) -> (r: usize)
        ensures
            r == self@.len(),
    {
        self.nodes.len()
    }

    pub fn root(&self) -> (r: &Node)
        requires
            self.wf(),
        ensures
            *r == self@.last(),
    {
        &self.nodes[self.nodes.len() - 1]
    }

    pub fn root_index(&self) -> (r: usize)
        requires
            self.wf(),
        ensures
            r == self@.len() - 1,
    {
        self.nodes.len() - 1
    }

    pub fn node(&self, index: usize) -> (r: &Node)
        requires
            index < self@.len(),
        ensures
            *r == self@[index as int],
    {
        &self.nodes[index]
    }

    pub fn nodes(&self) -> (r: &[Node])
        ensures
            r@ == self@,
    {
        self.nodes.as_slice()
    }

    /// Hands the arena over to a transformation.
    pub fn take_nodes(self) -> (r: Vec<Node>)
        ensures
            r@ == self@,
    {
        self.nodes
    }

    /// Checks that `nodes` is a well-formed arena and hands it back.
    pub fn validate(nodes: Vec<Node>) -> (r: Result<Vec<Node>, TreeError>)
        ensures
            match (r, validation(nodes@)) {
                (Ok(v), Ok(_)) => v@ == nodes@,
                (Err(e), Err(f)) => e == f,
                _ => false,
            },
            r is Ok <==> nodes_wf(nodes@),
    {
        proof {
            lemma_validation_ok(nodes@);
        }
        let len = nodes.len();
        if len == 0 {
            return Err(TreeError::EmptyTree);
        }
        let mut k: usize = 0;
        while k < len
            invariant
                len == nodes@.len(),
                k <= len,
                first_error(nodes@, k as int) is None,
            decreases len - k,
        {
            match check_node(&nodes[k], k, len) {
                Some(e) => {
                    assert(first_error(nodes@, k + 1) == Some(e));
                    proof {
                        lemma_first_error_stays(nodes@, k + 1, len as int);
                    }
                    return Err(e);
                },
                None => {},
            }
            k = k + 1;
        }
        Ok(nodes)
    }

    /// Builds a tree from an arena, refusing it as `validate` does.
    pub fn from_nodes(nodes: Vec<Node>) -> (r: Result<Tree, TreeError>)
        ensures
            match (r, validation(nodes@)) {
                (Ok(t), Ok(_)) => t@ == nodes@ && t.wf(),
                (Err(e), Err(f)) => e == f,
                _ => false,
            },
    {
        match Tree::validate(nodes) {
            Ok(v) => Ok(Tree { nodes: v }),
            Err(e) => Err(e),
        }
    }

    /// Composes `self` and `other` under a binary operator: the nodes of
    /// `other` are appended with their operands rebased, then the new root.
    pub fn binary_op(self, other: Tree, op: BinaryOp) -> (r: Tree)
        requires
            self.wf(),
            other.wf(),
            self@.len() + other@.len() < usize::MAX,
        ensures
            r@ == composed(self@, other@, op),
            r.wf(),
    {
        let mut nodes = self.nodes;
        let other_nodes = other.nodes;
        let offset: usize = nodes.len();
        let n = other_nodes.len();
        let mut k: usize = 0;
        while k < n
            invariant
                offset == self@.len(),
                n == other@.len(),
                k <= n,
                nodes_wf(other@),
                other_nodes@ == other@,
                nodes@ == self@ + shift_all(other@.take(k as int), offset as int),
                offset + n < usize::MAX,
            decreases n - k,
        {
            let shifted = match other_nodes[k] {
                Node::Constant(v) => Node::Constant(v),
                Node::Symbol(c) => Node::Symbol(c),
                Node::Unary(o, i) => Node::Unary(o, i + offset),
                Node::Binary(o, l, r) => Node::Binary(o, l + offset, r + offset),
            };
            assert(node_topo(other@[k as int], k as int));
            nodes.push(shifted);
            assert(other@.take(k + 1) =~= other@.take(k as int).push(other@[k as int]));
            assert(shift_all(other@.take(k + 1), offset as int) =~= shift_all(
                other@.take(k as int),
                offset as int,
            ).push(shifted));
            k = k + 1;
        }
        let root = Node::Binary(op, offset - 1, nodes.len() - 1);
        nodes.push(root);
        assert(other@.take(n as int) =~= other@);
        let r = Tree { nodes };
        assert(r@ =~= composed(self@, other@, op));
        proof {
            lemma_composed_wf(self@, other@, op);
        }
        r
    }

    /// Applies a unary operator to the whole tree.
    pub fn unary_op(self, op: UnaryOp) -> (r: Tree)
        requires
            self.wf(),
            self@.len() < usize::MAX,
        ensures
            r@ == self@.push(Node::Unary(op, (self@.len() - 1) as usize)),
            r.wf(),
    {
        let mut nodes = self.nodes;
        let root = nodes.len() - 1;
        nodes.push(Node::Unary(op, root));
        let r = Tree { nodes };
        assert forall|k: int| 0 <= k < r@.len() implies node_topo(#[trigger] r@[k], k) by {
            if k < self@.len() {
                assert(r@[k] == self@[k]);
            }
        }
        r
    }
}

proof fn lemma_first_error_stays(s: Seq<Node>, n: int, m: int)
    requires
        0 <= n <= m,
        first_error(s, n) is Some,
    ensures
        first_error(s, m) == first_error(s, n),
    decreases m - n,
{
    if m > n {
        lemma_first_error_stays(s, n, m - 1);
    }
}

/// Composition keeps the tree invariant.
pub proof fn lemma_composed_wf(lhs: Seq<Node>, rhs: Seq<Node>, op: BinaryOp)
    requires
        nodes_wf(lhs),
        nodes_wf(rhs),
    ensures
        nodes_wf(composed(lhs, rhs, op)),
        composed(lhs, rhs, op).len() == lhs.len() + rhs.len() + 1,
{
    let c = composed(lhs, rhs, op);
    let off = lhs.len() as int;
    assert forall|k: int| 0 <= k < c.len() implies node_topo(#[trigger] c[k], k) by {
        if k < off {
            assert(c[k] == lhs[k]);
        } else if k < off + rhs.len() {
            assert(c[k] == shift_node(rhs[k - off], off));
            assert(node_topo(rhs[k - off], k - off));
        }
    }
}


/// The sum of two trees.
pub fn add(lhs: Tree, rhs: Tree) -> (r: Tree)
    requires
        lhs.wf(),
        rhs.wf(),
        lhs@.len() + rhs@.len() < usize::MAX,
    ensures
        r@ == composed(lhs@, rhs@, BinaryOp::Add),
        r.wf(),
{
    lhs.binary_op(rhs, BinaryOp::Add)
}

impl vstd::std_specs::ops::SubSpecImpl<Tree> for Tree {
    open spec fn obeys_sub_spec() -> bool {
        false
    }

    open spec fn sub_req(self, rhs: Tree) -> bool {
        self.wf() && rhs.wf() && self@.len() + rhs@.len() < usize::MAX
    }

    open spec fn sub_spec(self, rhs: Tree) -> Tree {
        self
    }
}

impl std::ops::Sub<Tree> for Tree {
    type Output = Tree;

    fn sub(self, rhs: Tree) -> (r: Tree)
        ensures
            r@ == composed(self@, rhs@, BinaryOp::Subtract),
            r.wf(),
    {
        self.binary_op(rhs, BinaryOp::Subtract)
    }
}

impl vstd::std_specs::ops::MulSpecImpl<Tree> for Tree {
    open spec fn obeys_mul_spec() -> bool {
        false
    }

    open spec fn mul_req(self, rhs: Tree) -> bool {
        self.wf() && rhs.wf() && self@.len() + rhs@.len() < usize::MAX
    }

    open spec fn mul_spec(self, rhs: Tree) -> Tree {
        self
    }
}

impl std::ops::Mul<Tree> for Tree {
    type Output = Tree;

    fn mul(self, rhs: Tree) -> (r: Tree)
        ensures
            r@ == composed(self@, rhs@, BinaryOp::Multiply),
            r.wf(),
    {
        self.binary_op(rhs, BinaryOp::Multiply)
    }
}

impl vstd::std_specs::ops::DivSpecImpl<Tree> for Tree {
    open spec fn obeys_div_spec() -> bool {
        false
    }

    open spec fn div_req(self, rhs: Tree) -> bool {
        self.wf() && rhs.wf() && self@.len() + rhs@.len() < usize::MAX
    }

    open spec fn div_spec(self, rhs: Tree) -> Tree {
        self
    }
}

impl std::ops::Div<Tree> for Tree {
    type Output = Tree;

    fn div(self, rhs: Tree) -> (r: Tree)
        ensures
            r@ == composed(self@, rhs@, BinaryOp::Divide),
            r.wf(),
    {
        self.binary_op(rhs, BinaryOp::Divide)
    }
}

impl vstd::std_specs::ops::NegSpecImpl for Tree {
    open spec fn obeys_neg_spec() -> bool {
        false
    }

    open spec fn neg_req(self) -> bool {
        self.wf() && self@.len() < usize::MAX
    }

    open spec fn neg_spec(self) -> Tree {
        self
    }
}

impl std::ops::Neg for Tree {
    type Output = Tree;

    fn neg(self) -> (r: Tree)
        ensures
            r@ == self@.push(Node::Unary(UnaryOp::Negate, (self@.len() - 1) as usize)),
            r.wf(),
    {
        self.unary_op(UnaryOp::Negate)
    }
}

pub fn pow(base: Tree, exponent: Tree) -> (r: Tree)
    requires
        base.wf(),
        exponent.wf(),
        base@.len() + exponent@.len() < usize::MAX,
    ensures
        r@ == composed(base@, exponent@, BinaryOp::Pow),
        r.wf(),
{
    base.binary_op(exponent, BinaryOp::Pow)
}

pub fn min(lhs: Tree, rhs: Tree) -> (r: Tree)
    requires
        lhs.wf(),
        rhs.wf(),
        lhs@.len() + rhs@.len() < usize::MAX,
    ensures
        r@ == composed(lhs@, rhs@, BinaryOp::Min),
        r.wf(),
{
    lhs.binary_op(rhs, BinaryOp::Min)
}

pub fn max(lhs: Tree, rhs: Tree) -> (r: Tree)
    requires
        lhs.wf(),
        rhs.wf(),
        lhs@.len() + rhs@.len() < usize::MAX,
    ensures
        r@ == composed(lhs@, rhs@, BinaryOp::Max),
        r.wf(),
{
    lhs.binary_op(rhs, BinaryOp::Max)
}

pub fn sqrt(x: Tree) -> (r: Tree)
    requires
        x.wf(),
        x@.len() < usize::MAX,
    ensures
        r@ == x@.push(Node::Unary(UnaryOp::Sqrt, (x@.len() - 1) as usize)),
        r.wf(),
{
    x.unary_op(UnaryOp::Sqrt)
}

pub fn abs(x: Tree) -> (r: Tree)
    requires
        x.wf(),
        x@.len() < usize::MAX,
    ensures
        r@ == x@.push(Node::Unary(UnaryOp::Abs, (x@.len() - 1) as usize)),
        r.wf(),
{
    x.unary_op(UnaryOp::Abs)
}

pub fn sin(x: Tree) -> (r: Tree)
    requires
        x.wf(),
        x@.len() < usize::MAX,
    ensures
        r@ == x@.push(Node::Unary(UnaryOp::Sin, (x@.len() - 1) as usize)),
        r.wf(),
{
    x.unary_op(UnaryOp::Sin)
}

pub fn cos(x: Tree) -> (r: Tree)
    requires
        x.wf(),
        x@.len() < usize::MAX,
    ensures
        r@ == x@.push(Node::Unary(UnaryOp::Cos, (x@.len() - 1) as usize)),
        r.wf(),
{
    x.unary_op(UnaryOp::Cos)
}

pub fn tan(x: Tree) -> (r: Tree)
    requires
        x.wf(),
        x@.len() < usize::MAX,
    ensures
        r@ == x@.push(Node::Unary(UnaryOp::Tan, (x@.len() - 1) as usize)),
        r.wf(),
{
    x.unary_op(UnaryOp::Tan)
}

pub fn log(x: Tree) -> (r: Tree)
    requires
        x.wf(),
        x@.len() < usize::MAX,
    ensures
        r@ == x@.push(Node::Unary(UnaryOp::Log, (x@.len() - 1) as usize)),
        r.wf(),
{
    x.unary_op(UnaryOp::Log)
}

pub fn exp(x: Tree) -> (r: Tree)
    requires
        x.wf(),
        x@.len() < usize::MAX,
    ensures
        r@ == x@.push(Node::Unary(UnaryOp::Exp, (x@.len() - 1) as usize)),
        r.wf(),
{
    x.unary_op(UnaryOp::Exp)
}

impl vstd::std_specs::convert::FromSpecImpl<char> for Node {
    open spec fn obeys_from_spec() -> bool {
        true
    }

    open spec fn from_spec(c: char) -> Node {
        Node::Symbol(c)
    }
}

impl From<char> for Node {
    fn from(c: char) -> (r: Node) {
        Node::Symbol(c)
    }
}

impl vstd::std_specs::convert::FromSpecImpl<char> for Tree {
    open spec fn obeys_from_spec() -> bool {
        false
    }

    open spec fn from_spec(c: char) -> Tree {
        arbitrary()
    }
}

impl From<char> for Tree {
    /// The tree of one symbol.
    fn from(c: char) -> (r: Tree)
        ensures
            r@ == seq![Node::Symbol(c)],
            r.wf(),
    {
        Tree::new(Node::Symbol(c))
    }
}


/// What the subtree at `i` stands for under an interpretation of
/// constants, symbols and operators.
pub open spec fn denote<V>(
    nodes: Seq<Node>,
    i: int,
    cst: spec_fn(u64) -> V,
    var: spec_fn(char) -> V,
    un: spec_fn(UnaryOp, V) -> V,
    bin: spec_fn(BinaryOp, V, V) -> V,
) -> V
    decreases i,
{
    match nodes[i] {
        Node::Constant(b) => cst(b),
        Node::Symbol(c) => var(c),
        Node::Unary(op, a) => if a < i {
            un(op, denote(nodes, a as int, cst, var, un, bin))
        } else {
            arbitrary()
        },
        Node::Binary(op, l, r) => if l < i && r < i {
            bin(
                op,
                denote(nodes, l as int, cst, var, un, bin),
                denote(nodes, r as int, cst, var, un, bin),
            )
        } else {
            arbitrary()
        },
    }
}

/// The interpretation of binary operators gives the same value for swapped
/// operands of a commutative operator.
pub open spec fn commutes<V>(bin: spec_fn(BinaryOp, V, V) -> V) -> bool {
    forall|op: BinaryOp, x: V, y: V| op.spec_commutative() ==> #[trigger] bin(op, x, y) == bin(op, y, x)
}

} // verus!

use crate::tree::{node_topo, nodes_wf, BinaryOp, Node, Tree, UnaryOp};
use vstd::prelude::*;

verus! {

/// Errors of an evaluation.
#[derive(Debug, Copy, Clone, PartialEq, Eq, Structural)]
pub enum EvaluationError {
    /// A symbol was not given a value before the run.
    VariableNotFound(char),
    /// An operand's register was read before it was written, which a
    /// well-ordered tree never does.
    UninitializedRegister,
}

/// Node `k` is a symbol whose register holds no value.
pub open spec fn unbound_at<V>(nodes: Seq<Node>, regs: Seq<Option<V>>, k: int) -> bool {
    nodes[k] is Symbol && regs[k] is None
}

/// Node `k` is the first symbol without a value.
pub open spec fn first_unbound<V>(nodes: Seq<Node>, regs: Seq<Option<V>>, k: int) -> bool {
    &&& 0 <= k < nodes.len()
    &&& unbound_at(nodes, regs, k)
    &&& forall|q: int| 0 <= q < k ==> !unbound_at(nodes, regs, q)
}

/// After a run, register `k` holds what node `k` computes: the constant's
/// value, the symbol's bound value, or the operator applied to the operand
/// registers.
pub open spec fn register_holds<V, C, U, B>(
    nodes: Seq<Node>,
    regs: Seq<Option<V>>,
    given: Seq<Option<V>>,
    k: int,
    constant: C,
    unary: U,
    binary: B,
) -> bool where C: Fn(u64) -> V, U: Fn(UnaryOp, V) -> V, B: Fn(BinaryOp, V, V) -> V {
    &&& regs[k] is Some
    &&& match nodes[k] {
        Node::Constant(b) => constant.ensures((b,), regs[k]->Some_0),
        Node::Symbol(_) => regs[k] == given[k],
        Node::Unary(op, a) => regs[a as int] is Some && unary.ensures(
            (op, regs[a as int]->Some_0),
            regs[k]->Some_0,
        ),
        Node::Binary(op, l, r) => regs[l as int] is Some && regs[r as int] is Some && binary.ensures(
            (op, regs[l as int]->Some_0, regs[r as int]->Some_0),
            regs[k]->Some_0,
        ),
    }
}

/// Computes the value of a tree in one forward pass over a register per
/// node. The arithmetic is supplied by the caller, so values may be of any
/// copyable type.
pub struct Evaluator<'a, V> {
    tree: &'a Tree,
    regs: Vec<Option<V>>,
}

impl<'a, V: Copy> Evaluator<'a, V> {
    pub closed spec fn nodes(&self) -> Seq<Node> {
        self.tree@
    }

    pub closed spec fn registers(&self) -> Seq<Option<V>> {
        self.regs@
    }

    pub open spec fn inv(&self) -> bool {
        &&& nodes_wf(self.nodes())
        &&& self.registers().len() == self.nodes().len()
    }

    /// An evaluator for `tree`, with every register empty.
    pub fn new(tree: &'a Tree) -> (r: Evaluator<'a, V>)
        requires
            tree.wf(),
        ensures
            r.inv(),
            r.nodes() == tree@,
            r.registers() == Seq::new(tree@.len(), |k: int| None::<V>),
    {
        let n = tree.len();
        let mut regs: Vec<Option<V>> = Vec::new();
        let mut k: usize = 0;
        while k < n
            invariant
                k <= n,
                regs@ == Seq::new(k as nat, |q: int| None::<V>),
            decreases n - k,
        {
            regs.push(None);
            k = k + 1;
            assert(regs@ =~= Seq::new(k as nat, |q: int| None::<V>));
        }
        Evaluator { tree, regs }
    }

    /// Gives `value` to every symbol labelled `label`, for this and later
    /// runs; other registers are left alone.
    pub fn set_var(&mut self, label: char, value: V)
        requires
            old(self).inv(),
        ensures
            final(self).inv(),
            final(self).nodes() == old(self).nodes(),
            final(self).registers() == Seq::new(
                old(self).nodes().len(),
                |k: int|
                    if old(self).nodes()[k] == Node::Symbol(label) {
                        Some(value)
                    } else {
                        old(self).registers()[k]
                    },
            ),
    {
        let n = self.regs.len();
        let mut k: usize = 0;
        while k < n
            invariant
                k <= n,
                n == old(self).registers().len(),
                n == old(self).nodes().len(),
                self.tree == old(self).tree,
                self.regs@.len() == n,
                forall|q: int|
                    0 <= q < k ==> #[trigger] self.regs@[q] == if old(self).nodes()[q] == Node::Symbol(
                        label,
                    ) {
                        Some(value)
                    } else {
                        old(self).registers()[q]
                    },
                forall|q: int| k <= q < n ==> #[trigger] self.regs@[q] == old(self).registers()[q],
            decreases n - k,
        {
            match self.tree.node(k) {
                Node::Symbol(l) => {
                    if *l == label {
                        self.regs.set(k, Some(value));
                    }
                },
                _ => {},
            }
            k = k + 1;
        }
        proof {
            assert(self.regs@ =~= Seq::new(
                old(self).nodes().len(),
                |k: int|
                    if old(self).nodes()[k] == Node::Symbol(label) {
                        Some(value)
                    } else {
                        old(self).registers()[k]
                    },
            ));
        }
    }

    fn read(&self, index: usize) -> (r: Result<V, EvaluationError>)
        requires
            index < self.regs@.len(),
        ensures
            match self.regs@[index as int] {
                Some(v) => r == Ok::<V, EvaluationError>(v),
                None => r == Err::<V, EvaluationError>(EvaluationError::UninitializedRegister),
            },
    {
        match self.regs[index] {
            Some(val) => Ok(val),
            None => Err(EvaluationError::UninitializedRegister),
        }
    }

    fn write(&mut self, index: usize, value: V)
        requires
            index < old(self).regs@.len(),
        ensures
            final(self).regs@ == old(self).regs@.update(index as int, Some(value)),
            final(self).tree == old(self).tree,
    {
        self.regs.set(index, Some(value));
    }

    /// Runs the evaluation. Fails with the label of the first symbol, in
    /// node order, that has no value; otherwise every register holds what
    /// its node computes from its operands' registers, and the root's is
    /// returned.
    pub fn run<C, U, B>(&mut self, constant: &C, unary: &U, binary: &B) -> (r: Result<V, EvaluationError>) where
        C: Fn(u64) -> V,
        U: Fn(UnaryOp, V) -> V,
        B: Fn(BinaryOp, V, V) -> V,

        requires
            old(self).inv(),
            forall|b: u64| #[trigger] constant.requires((b,)),
            forall|op: UnaryOp, x: V| #[trigger] unary.requires((op, x)),
            forall|op: BinaryOp, x: V, y: V| #[trigger] binary.requires((op, x, y)),
        ensures
            final(self).inv(),
            final(self).nodes() == old(self).nodes(),
            match r {
                Ok(v) => {
                    &&& forall|k: int|
                        0 <= k < old(self).nodes().len() ==> !unbound_at(
                            old(self).nodes(),
                            old(self).registers(),
                            k,
                        )
                    &&& forall|k: int|
                        0 <= k < old(self).nodes().len() ==> #[trigger] register_holds(
                            old(self).nodes(),
                            final(self).registers(),
                            old(self).registers(),
                            k,
                            *constant,
                            *unary,
                            *binary,
                        )
                    &&& final(self).registers().last() == Some(v)
                },
                Err(EvaluationError::VariableNotFound(c)) => exists|k: int|
                    #[trigger] first_unbound(old(self).nodes(), old(self).registers(), k)
                        && old(self).nodes()[k] == Node::Symbol(c),
                Err(EvaluationError::UninitializedRegister) => false,
            },
    {
        let ghost nodes = self.tree@;
        let ghost given = self.regs@;
        let n = self.tree.len();
        let mut idx: usize = 0;
        while idx < n
            invariant
                idx <= n,
                n == nodes.len(),
                nodes == self.tree@,
                self.tree == old(self).tree,
                nodes_wf(nodes),
                given == old(self).regs@,
                self.regs@.len() == n,
                forall|k: int| 0 <= k < idx ==> !unbound_at(nodes, given, k),
                forall|k: int|
                    0 <= k < idx ==> #[trigger] register_holds(
                        nodes,
                        self.regs@,
                        given,
                        k,
                        *constant,
                        *unary,
                        *binary,
                    ),
                forall|k: int| idx <= k < n ==> #[trigger] self.regs@[k] == given[k],
                forall|b: u64| #[trigger] constant.requires((b,)),
                forall|op: UnaryOp, x: V| #[trigger] unary.requires((op, x)),
                forall|op: BinaryOp, x: V, y: V| #[trigger] binary.requires((op, x, y)),
            decreases n - idx,
        {
            let ghost before = self.regs@;
            assert(node_topo(nodes[idx as int], idx as int));
            let value = match self.tree.node(idx) {
                Node::Constant(val) => constant(*val),
                Node::Symbol(label) => match self.regs[idx] {
                    None => {
                        assert(first_unbound(nodes, given, idx as int));
                        assert(nodes[idx as int] == Node::Symbol(*label));
                        assert(old(self).nodes() == nodes);
                        assert(old(self).registers() == given);
                        assert(exists|k: int| #[trigger] first_unbound(old(self).nodes(), old(self).registers(), k)
                        && old(self).nodes()[k] == Node::Symbol(*label));
                        return Err(EvaluationError::VariableNotFound(*label));
                    },
                    Some(val) => val,
                },
                Node::Binary(op, lhs, rhs) => {
                    assert(register_holds(nodes, self.regs@, given, *lhs as int, *constant, *unary, *binary));
                    assert(register_holds(nodes, self.regs@, given, *rhs as int, *constant, *unary, *binary));
                    let a = match self.read(*lhs) {
                        Ok(a) => a,
                        Err(e) => {
                            return Err(e);
                        },
                    };
                    let b = match self.read(*rhs) {
                        Ok(b) => b,
                        Err(e) => {
                            return Err(e);
                        },
                    };
                    binary(*op, a, b)
                },
                Node::Unary(op, input) => {
                    assert(register_holds(nodes, self.regs@, given, *input as int, *constant, *unary, *binary));
                    let x = match self.read(*input) {
                        Ok(x) => x,
                        Err(e) => {
                            return Err(e);
                        },
                    };
                    unary(*op, x)
                },
            };
            self.write(idx, value);
            proof {
                assert forall|k: int| 0 <= k <= idx implies #[trigger] register_holds(
                    nodes,
                    self.regs@,
                    given,
                    k,
                    *constant,
                    *unary,
                    *binary,
                ) by {
                    if k < idx {
                        assert(register_holds(nodes, before, given, k, *constant, *unary, *binary));
                        assert(node_topo(nodes[k], k));
                    }
                }
            }
            idx = idx + 1;
        }
        assert(register_holds(nodes, self.regs@, given, n - 1, *constant, *unary, *binary));
        self.read(n - 1)
    }
}

} // verus!

verus! {

/// When the supplied arithmetic computes the functions `cst`, `un` and
/// `bin`, and each symbol's register was given `env` of its label, the
/// registers after a run hold exactly what the nodes denote. Together with
/// the meaning-preservation law of deduplication, a tree and its
/// deduplicated form evaluate alike.
pub proof fn lemma_registers_denote<V, C, U, B>(
    nodes: Seq<Node>,
    regs: Seq<Option<V>>,
    given: Seq<Option<V>>,
    constant: C,
    unary: U,
    binary: B,
    cst: spec_fn(u64) -> V,
    env: spec_fn(char) -> V,
    un: spec_fn(UnaryOp, V) -> V,
    bin: spec_fn(BinaryOp, V, V) -> V,
    k: int,
) where C: Fn(u64) -> V, U: Fn(UnaryOp, V) -> V, B: Fn(BinaryOp, V, V) -> V
    requires
        nodes_wf(nodes),
        0 <= k < nodes.len(),
        forall|q: int|
            0 <= q < nodes.len() ==> #[trigger] register_holds(
                nodes,
                regs,
                given,
                q,
                constant,
                unary,
                binary,
            ),
        forall|b: u64, v: V| #[trigger] constant.ensures((b,), v) ==> v == cst(b),
        forall|op: UnaryOp, x: V, v: V| #[trigger] unary.ensures((op, x), v) ==> v == un(op, x),
        forall|op: BinaryOp, x: V, y: V, v: V| #[trigger] binary.ensures((op, x, y), v) ==> v == bin(
            op,
            x,
            y,
        ),
        forall|q: int|
            0 <= q < nodes.len() && #[trigger] nodes[q] is Symbol ==> given[q] == Some(
                env(nodes[q]->Symbol_0),
            ),
    ensures
        regs[k] == Some(crate::tree::denote(nodes, k, cst, env, un, bin)),
    decreases k,
{
    assert(node_topo(nodes[k], k));
    assert(register_holds(nodes, regs, given, k, constant, unary, binary));
    match nodes[k] {
        Node::Unary(_, a) => {
            lemma_registers_denote(nodes, regs, given, constant, unary, binary, cst, env, un, bin, a as int);
        },
        Node::Binary(_, l, r) => {
            lemma_registers_denote(nodes, regs, given, constant, unary, binary, cst, env, un, bin, l as int);
            lemma_registers_denote(nodes, regs, given, constant, unary, binary, cst, env, un, bin, r as int);
        },
        _ => {},
    }
}

} // verus!

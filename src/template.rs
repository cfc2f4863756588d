use crate::helper::is_nan;
use crate::tree::{
    composed, lemma_validation_ok, nodes_wf, validation, BinaryOp, Node, Tree, TreeError, UnaryOp,
};
use vstd::prelude::*;

verus! {

/// A rewrite rule: two well-formed arenas over a common set of symbols,
/// either of which may replace the other.
pub struct Template {
    ping: Vec<Node>,
    pong: Vec<Node>,
}

impl View for Template {
    type V = (Seq<Node>, Seq<Node>);

    closed spec fn view(&self) -> (Seq<Node>, Seq<Node>) {
        (self.ping@, self.pong@)
    }
}

fn copy_nodes(v: &Vec<Node>) -> (r: Vec<Node>)
    ensures
        r@ == v@,
{
    let mut r: Vec<Node> = Vec::new();
    let mut k: usize = 0;
    while k < v.len()
        invariant
            k <= v@.len(),
            r@ == v@.take(k as int),
        decreases v@.len() - k,
    {
        r.push(v[k]);
        k = k + 1;
        assert(r@ =~= v@.take(k as int));
    }
    assert(v@.take(v@.len() as int) =~= v@);
    r
}

impl Template {
    /// A template from two arenas, each validated as a tree; the first
    /// refusal is returned.
    pub fn from(ping: Vec<Node>, pong: Vec<Node>) -> (r: Result<Template, TreeError>)
        ensures
            r is Ok <==> nodes_wf(ping@) && nodes_wf(pong@),
            r is Ok ==> r->Ok_0@ == (ping@, pong@),
            validation(ping@) is Err ==> r == Err::<Template, TreeError>(validation(ping@)->Err_0),
            validation(ping@) is Ok && validation(pong@) is Err ==> r == Err::<Template, TreeError>(
                validation(pong@)->Err_0,
            ),
    {
        proof {
            lemma_validation_ok(ping@);
            lemma_validation_ok(pong@);
        }
        let ping = match Tree::validate(ping) {
            Ok(v) => v,
            Err(e) => {
                return Err(e);
            },
        };
        let pong = match Tree::validate(pong) {
            Ok(v) => v,
            Err(e) => {
                return Err(e);
            },
        };
        Ok(Template { ping, pong })
    }

    pub fn ping(&self) -> (r: &[Node])
        ensures
            r@ == self@.0,
    {
        self.ping.as_slice()
    }

    pub fn pong(&self) -> (r: &[Node])
        ensures
            r@ == self@.1,
    {
        self.pong.as_slice()
    }

    /// Appends the reverse of every template, so that each rule can be
    /// applied in both directions.
    pub fn mirror_templates(templates: Vec<Template>) -> (r: Vec<Template>)
        requires
            templates@.len() * 2 <= usize::MAX,
        ensures
            r@.len() == 2 * templates@.len(),
            forall|k: int| 0 <= k < templates@.len() ==> #[trigger] r@[k]@ == templates@[k]@,
            forall|k: int|
                0 <= k < templates@.len() ==> #[trigger] r@[k + templates@.len()]@ == (
                    templates@[k]@.1,
                    templates@[k]@.0,
                ),
    {
        let mut templates = templates;
        let ghost orig = templates@;
        let num = templates.len();
        let mut i: usize = 0;
        while i < num
            invariant
                i <= num,
                num == orig.len(),
                templates@.len() == num + i,
                forall|k: int| 0 <= k < num ==> #[trigger] templates@[k]@ == orig[k]@,
                forall|k: int| 0 <= k < i ==> #[trigger] templates@[k + num]@ == (orig[k]@.1, orig[k]@.0),
                num * 2 <= usize::MAX,
            decreases num - i,
        {
            assert(templates@[i as int]@ == orig[i as int]@);
            let t = &templates[i];
            let mirrored = Template { ping: copy_nodes(&t.pong), pong: copy_nodes(&t.ping) };
            assert(mirrored@ == (orig[i as int]@.1, orig[i as int]@.0));
            templates.push(mirrored);
            assert(templates@[i + num] == mirrored);
            i = i + 1;
        }
        templates
    }
}

/// The arena of one symbol.
pub open spec fn leaf(c: char) -> Seq<Node> {
    seq![Node::Symbol(c)]
}

/// The arena of one constant.
pub open spec fn lit(bits: u64) -> Seq<Node> {
    seq![Node::Constant(bits)]
}

/// The arena of `op` applied to `a`.
pub open spec fn una(op: UnaryOp, a: Seq<Node>) -> Seq<Node> {
    a.push(Node::Unary(op, (a.len() - 1) as usize))
}

/// The arena of `op` applied to `a` and `b`.
pub open spec fn bin(op: BinaryOp, a: Seq<Node>, b: Seq<Node>) -> Seq<Node> {
    composed(a, b, op)
}

/// The built-in rewrite rules, one direction each, as (pattern,
/// replacement) arenas.
pub open spec fn builtin_rule(k: int) -> (Seq<Node>, Seq<Node>) {
    let (a, b, d, x, y, kk) = (leaf('a'), leaf('b'), leaf('d'), leaf('x'), leaf('y'), leaf('k'));
    let (zero, one, two) = (lit(ZERO_BITS), lit(ONE_BITS), lit(TWO_BITS));
    if k == 0 {
        // Factoring a common multiplicand out of a sum.
        (
            bin(BinaryOp::Add, bin(BinaryOp::Multiply, kk, a), bin(BinaryOp::Multiply, kk, b)),
            bin(BinaryOp::Multiply, kk, bin(BinaryOp::Add, a, b)),
        )
    } else if k == 1 {
        // Minimum of two square roots.
        (
            bin(BinaryOp::Min, una(UnaryOp::Sqrt, a), una(UnaryOp::Sqrt, b)),
            una(UnaryOp::Sqrt, bin(BinaryOp::Min, a, b)),
        )
    } else if k == 2 {
        // Interchangeable fractions.
        (
            bin(BinaryOp::Multiply, bin(BinaryOp::Divide, a, b), bin(BinaryOp::Divide, x, y)),
            bin(BinaryOp::Multiply, bin(BinaryOp::Divide, a, y), bin(BinaryOp::Divide, x, b)),
        )
    } else if k == 3 {
        // Cancelling division.
        (bin(BinaryOp::Divide, a, a), one)
    } else if k == 4 {
        // Squaring a quotient.
        (
            bin(BinaryOp::Pow, bin(BinaryOp::Divide, a, b), two),
            bin(BinaryOp::Divide, bin(BinaryOp::Pow, a, two), bin(BinaryOp::Pow, b, two)),
        )
    } else if k == 5 {
        // Squaring a product.
        (
            bin(BinaryOp::Pow, bin(BinaryOp::Multiply, a, b), two),
            bin(BinaryOp::Multiply, bin(BinaryOp::Pow, a, two), bin(BinaryOp::Pow, b, two)),
        )
    } else if k == 6 {
        // Square of a square root.
        (bin(BinaryOp::Pow, una(UnaryOp::Sqrt, a), two), a)
    } else if k == 7 {
        // Square root of a square.
        (una(UnaryOp::Sqrt, bin(BinaryOp::Pow, a, two)), a)
    } else if k == 8 {
        // Combining exponents.
        (
            bin(BinaryOp::Pow, bin(BinaryOp::Pow, a, x), y),
            bin(BinaryOp::Pow, a, bin(BinaryOp::Multiply, x, y)),
        )
    } else if k == 9 {
        // Adding fractions with a common denominator.
        (
            bin(BinaryOp::Add, bin(BinaryOp::Divide, a, d), bin(BinaryOp::Divide, b, d)),
            bin(BinaryOp::Divide, bin(BinaryOp::Add, a, b), d),
        )
    } else if k == 10 {
        (bin(BinaryOp::Add, x, zero), x)
    } else if k == 11 {
        (bin(BinaryOp::Subtract, x, zero), x)
    } else if k == 12 {
        (bin(BinaryOp::Multiply, x, one), x)
    } else if k == 13 {
        (bin(BinaryOp::Pow, x, one), x)
    } else if k == 14 {
        (bin(BinaryOp::Multiply, x, zero), zero)
    } else if k == 15 {
        (bin(BinaryOp::Pow, x, zero), one)
    } else if k == 16 {
        // Maximum through the absolute difference.
        (
            bin(BinaryOp::Max, a, b),
            bin(
                BinaryOp::Divide,
                bin(
                    BinaryOp::Add,
                    bin(BinaryOp::Add, a, b),
                    una(UnaryOp::Abs, bin(BinaryOp::Subtract, b, a)),
                ),
                two,
            ),
        )
    } else {
        // Minimum through the absolute difference.
        (
            bin(BinaryOp::Min, a, b),
            bin(
                BinaryOp::Divide,
                bin(
                    BinaryOp::Subtract,
                    bin(BinaryOp::Add, a, b),
                    una(UnaryOp::Abs, bin(BinaryOp::Subtract, b, a)),
                ),
                two,
            ),
        )
    }
}

/// The number of built-in rules, before mirroring.
pub const RULE_COUNT: usize = 18;

fn sym(c: char) -> (t: Tree)
    ensures
        t@ == leaf(c),
        t.wf(),
{
    Tree::new(Node::Symbol(c))
}

/// Bit patterns of the doubles 0, 1 and 2.
pub const ZERO_BITS: u64 = 0;

pub const ONE_BITS: u64 = 0x3ff0_0000_0000_0000;

pub const TWO_BITS: u64 = 0x4000_0000_0000_0000;

proof fn lemma_constants_not_nan()
    ensures
        !is_nan(ZERO_BITS),
        !is_nan(ONE_BITS),
        !is_nan(TWO_BITS),
{
    assert(0u64 & 0x7ff0_0000_0000_0000u64 != 0x7ff0_0000_0000_0000u64) by (bit_vector);
    assert(0x3ff0_0000_0000_0000u64 & 0x7ff0_0000_0000_0000u64 != 0x7ff0_0000_0000_0000u64) by (bit_vector);
    assert(0x4000_0000_0000_0000u64 & 0x7ff0_0000_0000_0000u64 != 0x7ff0_0000_0000_0000u64) by (bit_vector);
}

fn num(bits: u64) -> (t: Tree)
    requires
        bits == ZERO_BITS || bits == ONE_BITS || bits == TWO_BITS,
    ensures
        t@ == lit(bits),
        t.wf(),
{
    proof {
        lemma_constants_not_nan();
    }
    Tree::new(Node::Constant(bits))
}

fn rule(ping: Tree, pong: Tree) -> (t: Template)
    requires
        ping.wf(),
        pong.wf(),
    ensures
        t@ == (ping@, pong@),
{
    let a = ping.take_nodes();
    let b = pong.take_nodes();
    proof {
        lemma_validation_ok(a@);
        lemma_validation_ok(b@);
    }
    match Template::from(a, b) {
        Ok(t) => t,
        Err(_) => {
            proof {
                assert(false);
            }
            Template { ping: Vec::new(), pong: Vec::new() }
        },
    }
}

fn join(a: Tree, b: Tree, op: BinaryOp) -> (r: Tree)
    requires
        a.wf(),
        b.wf(),
        a@.len() + b@.len() < 1000,
    ensures
        r.wf(),
        r@ == bin(op, a@, b@),
        r@.len() == a@.len() + b@.len() + 1,
{
    a.binary_op(b, op)
}

fn apply(a: Tree, op: UnaryOp) -> (r: Tree)
    requires
        a.wf(),
        a@.len() < 1000,
    ensures
        r.wf(),
        r@ == una(op, a@),
        r@.len() == a@.len() + 1,
{
    a.unary_op(op)
}

/// All templates of `v` are pairs of trees.
pub open spec fn all_valid(v: Seq<Template>) -> bool {
    forall|k: int| 0 <= k < v.len() ==> nodes_wf(#[trigger] v[k]@.0) && nodes_wf(v[k]@.1)
}

proof fn lemma_mirror_valid(orig: Seq<Template>, r: Seq<Template>)
    requires
        all_valid(orig),
        r.len() == 2 * orig.len(),
        forall|k: int| 0 <= k < orig.len() ==> #[trigger] r[k]@ == orig[k]@,
        forall|k: int| 0 <= k < orig.len() ==> #[trigger] r[k + orig.len()]@ == (orig[k]@.1, orig[k]@.0),
    ensures
        all_valid(r),
{
    assert forall|k: int| 0 <= k < r.len() implies nodes_wf(#[trigger] r[k]@.0) && nodes_wf(r[k]@.1) by {
        if k >= orig.len() {
            let j = k - orig.len();
            assert(r[j + orig.len()]@ == (orig[j]@.1, orig[j]@.0));
            assert(nodes_wf(orig[j]@.0));
        } else {
            assert(r[k]@ == orig[k]@);
            assert(nodes_wf(orig[k]@.0));
        }
    }
}

/// The first `n` templates of `v` are the first `n` built-in rules.
pub open spec fn rules_so_far(v: Seq<Template>, n: int) -> bool {
    &&& v.len() == n
    &&& all_valid(v)
    &&& forall|k: int| 0 <= k < n ==> #[trigger] v[k]@ == builtin_rule(k)
}

fn add_rule(v: &mut Vec<Template>, ping: Tree, pong: Tree)
    requires
        rules_so_far(old(v)@, old(v)@.len() as int),
        old(v)@.len() < RULE_COUNT,
        ping.wf(),
        pong.wf(),
        (ping@, pong@) == builtin_rule(old(v)@.len() as int),
    ensures
        rules_so_far(final(v)@, final(v)@.len() as int),
        final(v)@.len() == old(v)@.len() + 1,
{
    v.push(rule(ping, pong));
    assert forall|k: int| 0 <= k < v@.len() implies #[trigger] v@[k]@ == builtin_rule(k) by {
        if k < old(v)@.len() {
            assert(v@[k] == old(v)@[k]);
        }
    }
}

/// The built-in rewrite rules, each in both directions: the rules of
/// `builtin_rule` in order, then each of them reversed.
pub fn builtin_templates() -> (r: Vec<Template>)
    ensures
        r@.len() == 2 * RULE_COUNT,
        all_valid(r@),
        forall|k: int| 0 <= k < RULE_COUNT ==> #[trigger] r@[k]@ == builtin_rule(k),
        forall|k: int|
            0 <= k < RULE_COUNT ==> #[trigger] r@[k + RULE_COUNT]@ == (r@[k]@.1, r@[k]@.0),
{
    let mut v: Vec<Template> = Vec::new();
    let p = join(join(sym('k'), sym('a'), BinaryOp::Multiply), join(sym('k'), sym('b'), BinaryOp::Multiply), BinaryOp::Add);
    let q = join(sym('k'), join(sym('a'), sym('b'), BinaryOp::Add), BinaryOp::Multiply);
    add_rule(&mut v, p, q);
    let p = join(apply(sym('a'), UnaryOp::Sqrt), apply(sym('b'), UnaryOp::Sqrt), BinaryOp::Min);
    let q = apply(join(sym('a'), sym('b'), BinaryOp::Min), UnaryOp::Sqrt);
    add_rule(&mut v, p, q);
    let p = join(join(sym('a'), sym('b'), BinaryOp::Divide), join(sym('x'), sym('y'), BinaryOp::Divide), BinaryOp::Multiply);
    let q = join(join(sym('a'), sym('y'), BinaryOp::Divide), join(sym('x'), sym('b'), BinaryOp::Divide), BinaryOp::Multiply);
    add_rule(&mut v, p, q);
    let p = join(sym('a'), sym('a'), BinaryOp::Divide);
    add_rule(&mut v, p, num(ONE_BITS));
    let p = join(join(sym('a'), sym('b'), BinaryOp::Divide), num(TWO_BITS), BinaryOp::Pow);
    let q = join(join(sym('a'), num(TWO_BITS), BinaryOp::Pow), join(sym('b'), num(TWO_BITS), BinaryOp::Pow), BinaryOp::Divide);
    add_rule(&mut v, p, q);
    let p = join(join(sym('a'), sym('b'), BinaryOp::Multiply), num(TWO_BITS), BinaryOp::Pow);
    let q = join(join(sym('a'), num(TWO_BITS), BinaryOp::Pow), join(sym('b'), num(TWO_BITS), BinaryOp::Pow), BinaryOp::Multiply);
    add_rule(&mut v, p, q);
    let p = join(apply(sym('a'), UnaryOp::Sqrt), num(TWO_BITS), BinaryOp::Pow);
    add_rule(&mut v, p, sym('a'));
    let p = apply(join(sym('a'), num(TWO_BITS), BinaryOp::Pow), UnaryOp::Sqrt);
    add_rule(&mut v, p, sym('a'));
    let p = join(join(sym('a'), sym('x'), BinaryOp::Pow), sym('y'), BinaryOp::Pow);
    let q = join(sym('a'), join(sym('x'), sym('y'), BinaryOp::Multiply), BinaryOp::Pow);
    add_rule(&mut v, p, q);
    let p = join(join(sym('a'), sym('d'), BinaryOp::Divide), join(sym('b'), sym('d'), BinaryOp::Divide), BinaryOp::Add);
    let q = join(join(sym('a'), sym('b'), BinaryOp::Add), sym('d'), BinaryOp::Divide);
    add_rule(&mut v, p, q);
    add_rule(&mut v, join(sym('x'), num(ZERO_BITS), BinaryOp::Add), sym('x'));
    add_rule(&mut v, join(sym('x'), num(ZERO_BITS), BinaryOp::Subtract), sym('x'));
    add_rule(&mut v, join(sym('x'), num(ONE_BITS), BinaryOp::Multiply), sym('x'));
    add_rule(&mut v, join(sym('x'), num(ONE_BITS), BinaryOp::Pow), sym('x'));
    add_rule(&mut v, join(sym('x'), num(ZERO_BITS), BinaryOp::Multiply), num(ZERO_BITS));
    add_rule(&mut v, join(sym('x'), num(ZERO_BITS), BinaryOp::Pow), num(ONE_BITS));
    let p = join(sym('a'), sym('b'), BinaryOp::Max);
    let q = join(
        join(join(sym('a'), sym('b'), BinaryOp::Add), apply(join(sym('b'), sym('a'), BinaryOp::Subtract), UnaryOp::Abs), BinaryOp::Add),
        num(TWO_BITS),
        BinaryOp::Divide,
    );
    add_rule(&mut v, p, q);
    let p = join(sym('a'), sym('b'), BinaryOp::Min);
    let q = join(
        join(join(sym('a'), sym('b'), BinaryOp::Add), apply(join(sym('b'), sym('a'), BinaryOp::Subtract), UnaryOp::Abs), BinaryOp::Subtract),
        num(TWO_BITS),
        BinaryOp::Divide,
    );
    add_rule(&mut v, p, q);
    let ghost orig = v@;
    let r = Template::mirror_templates(v);
    proof {
        lemma_mirror_valid(orig, r@);
        assert forall|k: int| 0 <= k < RULE_COUNT implies #[trigger] r@[k + RULE_COUNT]@ == (r@[k]@.1, r@[k]@.0) by {
            assert(r@[k]@ == orig[k]@);
        }
    }
    r
}

} // verus!

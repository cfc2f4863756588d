use asg::dedup::{equivalent, Deduplicater};
use asg::hash::hash_nodes;
use asg::helper::{eq_recursive, DepthWalker, NodeOrdering};
use asg::prune::Trimmer;
use asg::tree::BinaryOp::{Add, Divide, Max, Min, Multiply, Pow, Subtract};
use asg::tree::Node::{Binary, Symbol};
use asg::tree::{BinaryOp, Node, Tree, UnaryOp};

fn check_tree(nodes: &Vec<Node>) {
    let tree = Tree::from_nodes(nodes.clone());
    match tree {
        Ok(tree) => {
            assert_eq!(tree.len(), nodes.len());
        }
        Err(_) => assert!(false),
    };
}

#[test]
fn recursive_compare() {
    let mut nodes = vec![
        Symbol('y'),
        Symbol('x'),
        Binary(Add, 0, 1),
        Symbol('x'),
        Symbol('y'),
        Binary(Add, 3, 4),
        Binary(Add, 5, 2),
        Binary(Add, 2, 2),
        Binary(Multiply, 6, 7),
    ];
    let mut walker1 = DepthWalker::new();
    let mut walker2 = DepthWalker::new();
    check_tree(&nodes);
    assert!(equivalent(2, 5, &nodes, &nodes, &mut walker1, &mut walker2));
    assert!(equivalent(6, 7, &nodes, &nodes, &mut walker1, &mut walker2));
    nodes[6] = Binary(Add, 2, 5);
    check_tree(&nodes);
    assert!(equivalent(2, 5, &nodes, &nodes, &mut walker1, &mut walker2));
    assert!(equivalent(6, 7, &nodes, &nodes, &mut walker1, &mut walker2));
    for op in [Multiply, Min, Max] {
        nodes[2] = Binary(op, 0, 1);
        nodes[5] = Binary(op, 3, 4);
        check_tree(&nodes);
        assert!(equivalent(2, 5, &nodes, &nodes, &mut walker1, &mut walker2));
        assert!(equivalent(6, 7, &nodes, &nodes, &mut walker1, &mut walker2));
    }
    for op in [Subtract, Divide, Pow] {
        nodes[2] = Binary(op, 0, 1);
        nodes[5] = Binary(op, 3, 4);
        check_tree(&nodes);
        assert!(!equivalent(2, 5, &nodes, &nodes, &mut walker1, &mut walker2));
        assert!(!equivalent(6, 7, &nodes, &nodes, &mut walker1, &mut walker2));
    }
}

#[test]
fn single_arena_comparison_agrees() {
    let nodes = vec![
        Symbol('y'),
        Symbol('x'),
        Binary(Max, 0, 1),
        Symbol('x'),
        Symbol('y'),
        Binary(Max, 3, 4),
        Binary(Add, 5, 2),
        Binary(Add, 2, 2),
        Binary(Subtract, 0, 1),
        Binary(Subtract, 3, 4),
    ];
    let mut w1 = DepthWalker::new();
    let mut w2 = DepthWalker::new();
    assert!(eq_recursive(&nodes, 2, 5, &mut w1, &mut w2));
    assert!(eq_recursive(&nodes, 6, 7, &mut w1, &mut w2));
    assert!(!eq_recursive(&nodes, 8, 9, &mut w1, &mut w2));
    assert!(!eq_recursive(&nodes, 2, 8, &mut w1, &mut w2));
}

#[test]
fn constants_compare_by_value() {
    let nodes = vec![
        Node::Constant(0f64.to_bits()),
        Node::Constant((-0f64).to_bits()),
        Node::Constant(1f64.to_bits()),
        Node::Constant(f64::NAN.to_bits()),
        Node::Constant(f64::NAN.to_bits()),
    ];
    let mut w1 = DepthWalker::new();
    let mut w2 = DepthWalker::new();
    assert!(equivalent(0, 1, &nodes, &nodes, &mut w1, &mut w2));
    assert!(!equivalent(0, 2, &nodes, &nodes, &mut w1, &mut w2));
    assert!(equivalent(3, 4, &nodes, &nodes, &mut w1, &mut w2));
}

#[test]
fn commutative_mirror_hashes_and_compares_equal() {
    let a = asg::tree::add(Tree::from('a'), Tree::from('b'));
    let b = asg::tree::add(Tree::from('b'), Tree::from('a'));
    let mut buf = vec![];
    let ha = a.hash(&mut buf);
    let hb = b.hash(&mut buf);
    assert_eq!(ha, hb);
    let mut w1 = DepthWalker::new();
    let mut w2 = DepthWalker::new();
    assert!(equivalent(a.root_index(), b.root_index(), a.nodes(), b.nodes(), &mut w1, &mut w2));
    let c = Tree::from('a') - Tree::from('b');
    let d = Tree::from('b') - Tree::from('a');
    assert_ne!(c.hash(&mut buf), d.hash(&mut buf));
    assert!(!equivalent(c.root_index(), d.root_index(), c.nodes(), d.nodes(), &mut w1, &mut w2));
}

#[test]
fn hashes_follow_structure() {
    let nodes = vec![
        Node::Constant(2f64.to_bits()),
        Node::Symbol('x'),
        Node::Unary(UnaryOp::Sin, 1),
        Node::Symbol('x'),
        Node::Unary(UnaryOp::Sin, 3),
        Node::Unary(UnaryOp::Cos, 3),
    ];
    let mut buf = vec![];
    hash_nodes(&nodes, &mut buf);
    assert_eq!(buf.len(), 6);
    assert_eq!(buf[0], 2f64.to_bits());
    assert_eq!(buf[1], buf[3]);
    assert_eq!(buf[2], buf[4]);
    assert_ne!(buf[2], buf[5]);
    assert_ne!(buf[1], buf[2]);
}

#[test]
fn deterministic_walk_ignores_operand_order() {
    let a = asg::tree::add(Tree::from('a'), Tree::from('b'));
    let b = asg::tree::add(Tree::from('b'), Tree::from('a'));
    let labels = |t: &Tree| {
        let mut w = DepthWalker::new();
        let mut it = w.walk_tree(t, false, NodeOrdering::Deterministic);
        let mut out = vec![];
        while let Some((i, _)) = it.next() {
            out.push(t.node(i).clone());
        }
        out.into_iter()
            .map(|n| match n {
                Node::Symbol(c) => c,
                _ => '+',
            })
            .collect::<Vec<char>>()
    };
    assert_eq!(labels(&a), labels(&b));
    assert_eq!(labels(&a), vec!['+', 'b', 'a']);
}

#[test]
fn original_walk_is_preorder_left_first() {
    let t = asg::tree::sin(Tree::from('x')) * Tree::from('y');
    let mut w = DepthWalker::new();
    let mut it = w.walk_tree(&t, false, NodeOrdering::Original);
    let mut seen = vec![];
    while let Some(f) = it.next() {
        seen.push(f);
    }
    assert_eq!(seen, vec![(3, None), (1, Some(3)), (0, Some(1)), (2, Some(3))]);
}

#[test]
fn unique_walk_visits_shared_nodes_once() {
    let nodes = vec![Node::Symbol('x'), Node::Binary(BinaryOp::Add, 0, 0)];
    let mut w = DepthWalker::new();
    let mut it = w.walk_nodes(&nodes, 1, true, NodeOrdering::Original);
    let mut seen = vec![];
    while let Some(f) = it.next() {
        seen.push(f);
    }
    assert_eq!(seen, vec![(1, None), (0, Some(1))]);
    let mut it = w.walk_nodes(&nodes, 1, false, NodeOrdering::Original);
    let mut count = 0;
    while let Some(_) = it.next() {
        count += 1;
    }
    assert_eq!(count, 3);
}

#[test]
fn skip_children_stops_descent() {
    let t = asg::tree::sin(Tree::from('x')) * Tree::from('y');
    let mut w = DepthWalker::new();
    let mut it = w.walk_tree(&t, false, NodeOrdering::Original);
    assert_eq!(it.next(), Some((3, None)));
    assert_eq!(it.next(), Some((1, Some(3))));
    it.skip_children();
    assert_eq!(it.next(), Some((2, Some(3))));
    assert_eq!(it.next(), None);
}

#[test]
fn deduplicater_rewires_to_first_copy() {
    let nodes = vec![
        Node::Symbol('x'),
        Node::Unary(UnaryOp::Sin, 0),
        Node::Symbol('x'),
        Node::Unary(UnaryOp::Sin, 2),
        Node::Binary(BinaryOp::Add, 1, 3),
    ];
    let mut d = Deduplicater::new();
    let out = d.run(nodes);
    assert_eq!(out[4], Node::Binary(BinaryOp::Add, 1, 1));
    assert_eq!(out[3], Node::Unary(UnaryOp::Sin, 0));
    let mut trimmer = Trimmer::new();
    let mut walker = DepthWalker::new();
    let pruned = trimmer.trim(out, 4, &mut walker);
    assert_eq!(
        pruned,
        vec![Node::Symbol('x'), Node::Unary(UnaryOp::Sin, 0), Node::Binary(BinaryOp::Add, 1, 1)]
    );
}

#[test]
fn pruning_keeps_only_reachable_nodes() {
    let nodes = vec![
        Node::Symbol('a'),
        Node::Symbol('b'),
        Node::Unary(UnaryOp::Exp, 0),
        Node::Symbol('c'),
        Node::Binary(BinaryOp::Pow, 3, 2),
        Node::Unary(UnaryOp::Tan, 1),
    ];
    let mut trimmer = Trimmer::new();
    let mut walker = DepthWalker::new();
    let pruned = trimmer.trim(nodes, 4, &mut walker);
    assert_eq!(
        pruned,
        vec![
            Node::Symbol('a'),
            Node::Unary(UnaryOp::Exp, 0),
            Node::Symbol('c'),
            Node::Binary(BinaryOp::Pow, 2, 1),
        ]
    );
    let t = Tree::from_nodes(pruned).unwrap();
    let mut w = DepthWalker::new();
    let mut it = w.walk_tree(&t, true, NodeOrdering::Original);
    let mut count = 0;
    while let Some(_) = it.next() {
        count += 1;
    }
    assert_eq!(count, t.len());
}

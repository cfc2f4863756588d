use asg::template::{builtin_templates, Template};
use asg::tree::TreeError;
use asg::tree::{BinaryOp, Node, Tree, UnaryOp};

fn var(c: char) -> Tree {
    Tree::from(c)
}

#[test]
fn add() {
    let sum = asg::tree::add(var('x'), var('y'));
    assert_eq!(
        sum.nodes().to_vec(),
        vec![Node::Symbol('x'), Node::Symbol('y'), Node::Binary(BinaryOp::Add, 0, 1)]
    );
}

#[test]
fn multiply() {
    let product = var('x') * var('y');
    assert_eq!(
        product.nodes().to_vec(),
        vec![Node::Symbol('x'), Node::Symbol('y'), Node::Binary(BinaryOp::Multiply, 0, 1)]
    );
}

#[test]
fn subtract() {
    let difference = var('x') - var('y');
    assert_eq!(
        difference.nodes().to_vec(),
        vec![Node::Symbol('x'), Node::Symbol('y'), Node::Binary(BinaryOp::Subtract, 0, 1)]
    );
}

#[test]
fn divide() {
    let quotient = var('x') / var('y');
    assert_eq!(
        quotient.nodes().to_vec(),
        vec![Node::Symbol('x'), Node::Symbol('y'), Node::Binary(BinaryOp::Divide, 0, 1)]
    );
}

#[test]
fn negate() {
    let neg = -var('x');
    assert_eq!(neg.nodes().to_vec(), vec![Node::Symbol('x'), Node::Unary(UnaryOp::Negate, 0)]);
}

#[test]
fn compose_rebases_right_operand() {
    let lhs = asg::tree::sin(var('x'));
    let rhs = asg::tree::pow(var('y'), Tree::new(Node::Constant(2f64.to_bits())));
    let t = lhs * rhs;
    assert_eq!(
        t.nodes().to_vec(),
        vec![
            Node::Symbol('x'),
            Node::Unary(UnaryOp::Sin, 0),
            Node::Symbol('y'),
            Node::Constant(2f64.to_bits()),
            Node::Binary(BinaryOp::Pow, 2, 3),
            Node::Binary(BinaryOp::Multiply, 1, 4),
        ]
    );
    assert_eq!(t.root_index(), 5);
    assert_eq!(t.len(), 6);
    assert_eq!(t.root(), &Node::Binary(BinaryOp::Multiply, 1, 4));
}

#[test]
fn validation_errors() {
    assert_eq!(Tree::from_nodes(vec![]).err(), Some(TreeError::EmptyTree));
    assert_eq!(
        Tree::from_nodes(vec![Node::Symbol('x'), Node::Unary(UnaryOp::Sin, 1)]).err(),
        Some(TreeError::WrongNodeOrder)
    );
    assert_eq!(
        Tree::from_nodes(vec![Node::Symbol('x'), Node::Binary(BinaryOp::Add, 0, 5)]).err(),
        Some(TreeError::IndexOutOfRange)
    );
    // The first faulty node decides the error.
    assert_eq!(
        Tree::validate(vec![
            Node::Symbol('x'),
            Node::Unary(UnaryOp::Cos, 2),
            Node::Binary(BinaryOp::Add, 0, 9),
        ])
        .err(),
        Some(TreeError::WrongNodeOrder)
    );
    let ok = Tree::from_nodes(vec![Node::Symbol('x'), Node::Unary(UnaryOp::Exp, 0)]).unwrap();
    assert_eq!(ok.len(), 2);
}

#[test]
fn operator_ordinals() {
    assert_eq!(UnaryOp::Negate.index(), 0);
    assert_eq!(UnaryOp::Exp.index(), 7);
    assert_eq!(BinaryOp::Add.index(), 0);
    assert_eq!(BinaryOp::Max.index(), 6);
    assert!(BinaryOp::Add.is_commutative());
    assert!(BinaryOp::Max.is_commutative());
    assert!(!BinaryOp::Subtract.is_commutative());
    assert!(!BinaryOp::Pow.is_commutative());
}

#[test]
fn load_templates() {
    let templates = builtin_templates();
    assert!(!templates.is_empty());
    assert!(templates.len() >= 36);
}

#[test]
fn mirrored_templates_swap_sides() {
    let templates = builtin_templates();
    let half = templates.len() / 2;
    for k in 0..half {
        assert_eq!(templates[k].ping(), templates[k + half].pong());
        assert_eq!(templates[k].pong(), templates[k + half].ping());
    }
}

#[test]
fn template_from_rejects_bad_side() {
    let good = vec![Node::Symbol('a')];
    let bad = vec![Node::Unary(UnaryOp::Abs, 0)];
    assert_eq!(Template::from(good.clone(), bad).err(), Some(TreeError::WrongNodeOrder));
    assert_eq!(Template::from(vec![], good.clone()).err(), Some(TreeError::EmptyTree));
    assert!(Template::from(good.clone(), good).is_ok());
}

#[test]
fn layout_gives_depths_in_walk_order() {
    let t = asg::tree::sin(var('x')) * -var('y');
    assert_eq!(t.layout(), vec![(4, 0), (1, 1), (0, 2), (3, 1), (2, 2)]);
    assert_eq!(
        t.depth_first_traverse(),
        vec![(4, None), (1, Some(4)), (0, Some(1)), (3, Some(4)), (2, Some(3))]
    );
}

#[test]
fn builtin_rules_come_first_then_reversed() {
    let templates = builtin_templates();
    assert_eq!(templates.len(), 36);
    // Cancelling division: a / a becomes 1.
    assert_eq!(
        templates[3].ping().to_vec(),
        vec![Node::Symbol('a'), Node::Symbol('a'), Node::Binary(BinaryOp::Divide, 0, 1)]
    );
    assert_eq!(templates[3].pong().to_vec(), vec![Node::Constant(1f64.to_bits())]);
    assert_eq!(templates[21].ping().to_vec(), vec![Node::Constant(1f64.to_bits())]);
}

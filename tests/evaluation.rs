use asg::eval::{EvaluationError, Evaluator};
use asg::tree;
use asg::tree::{cos, log, max, min, pow, sin, sqrt, BinaryOp, Node, Tree, UnaryOp};
use rand::rngs::StdRng;
use rand::{Rng, SeedableRng};

fn var(c: char) -> Tree {
    Tree::from(c)
}

fn num(v: f64) -> Tree {
    Tree::new(Node::Constant(v.to_bits()))
}

fn apply_unary(op: UnaryOp, x: f64) -> f64 {
    match op {
        UnaryOp::Negate => -x,
        UnaryOp::Sqrt => f64::sqrt(x),
        UnaryOp::Abs => f64::abs(x),
        UnaryOp::Sin => f64::sin(x),
        UnaryOp::Cos => f64::cos(x),
        UnaryOp::Tan => f64::tan(x),
        UnaryOp::Log => f64::log(x, std::f64::consts::E),
        UnaryOp::Exp => f64::exp(x),
    }
}

fn apply_binary(op: BinaryOp, a: f64, b: f64) -> f64 {
    match op {
        BinaryOp::Add => a + b,
        BinaryOp::Subtract => a - b,
        BinaryOp::Multiply => a * b,
        BinaryOp::Divide => a / b,
        BinaryOp::Pow => f64::powf(a, b),
        BinaryOp::Min => f64::min(a, b),
        BinaryOp::Max => f64::max(a, b),
    }
}

fn run(eval: &mut Evaluator<f64>) -> Result<f64, EvaluationError> {
    eval.run(&f64::from_bits, &apply_unary, &apply_binary)
}

fn assert_close(a: f64, b: f64, eps: f64) {
    let error = f64::abs(a - b);
    assert!(error <= eps, "|({}) - ({})| = {:e} > {:e}", a, b, error, eps);
}

/// Samples every variable in its range (a grid of random values) and
/// compares the tree's value with `expected`.
fn check_tree_eval<F>(tree: Tree, mut expected: F, vardata: &[(char, f64, f64)], samples_per_var: usize, eps: f64)
where
    F: FnMut(&[f64]) -> Option<f64>,
{
    let mut eval = Evaluator::new(&tree);
    let nvars = vardata.len();
    let mut indices = vec![0usize; nvars];
    let mut sample = Vec::<f64>::with_capacity(nvars);
    let mut rng = StdRng::seed_from_u64(42);
    while indices[0] <= samples_per_var {
        let vari = sample.len();
        let (label, lower, upper) = vardata[vari];
        let value = lower + rng.gen::<f64>() * (upper - lower);
        sample.push(value);
        eval.set_var(label, value);
        indices[vari] += 1;
        if vari < nvars - 1 {
            continue;
        }
        assert_close(run(&mut eval).unwrap(), expected(&sample[..]).unwrap(), eps);
        sample.pop();
        let mut vari = vari;
        while indices[vari] == samples_per_var && vari > 0 {
            if let Some(_) = sample.pop() {
                indices[vari] = 0;
                vari -= 1;
            } else {
                assert!(false);
            }
        }
    }
}

fn compare_trees(tree1: &Tree, tree2: &Tree, vardata: &[(char, f64, f64)], samples_per_var: usize, eps: f64) {
    let mut eval1 = Evaluator::new(tree1);
    let mut eval2 = Evaluator::new(tree2);
    let nvars = vardata.len();
    let mut indices = vec![0usize; nvars];
    let mut sample = Vec::<f64>::with_capacity(nvars);
    let mut rng = StdRng::seed_from_u64(42);
    while indices[0] <= samples_per_var {
        let vari = sample.len();
        let (label, lower, upper) = vardata[vari];
        let value = lower + rng.gen::<f64>() * (upper - lower);
        sample.push(value);
        eval1.set_var(label, value);
        eval2.set_var(label, value);
        indices[vari] += 1;
        if vari < nvars - 1 {
            continue;
        }
        assert_close(run(&mut eval1).unwrap(), run(&mut eval2).unwrap(), eps);
        sample.pop();
        let mut vari = vari;
        while indices[vari] == samples_per_var && vari > 0 {
            if let Some(_) = sample.pop() {
                indices[vari] = 0;
                vari -= 1;
            } else {
                assert!(false);
            }
        }
    }
}

/// sqrt((x - a)^2 + (y - b)^2 + (z - c)^2) - r, with the signs given.
fn sphere(sx: bool, sy: bool, r: f64) -> Tree {
    let dx = if sx { tree::add(var('x'), num(2.)) } else { var('x') - num(2.) };
    let dy = if sy { tree::add(var('y'), num(3.)) } else { var('y') - num(3.) };
    let dz = var('z') - num(4.);
    sqrt(tree::add(tree::add(pow(dx, num(2.)), pow(dy, num(2.))), pow(dz, num(2.)))) - num(r)
}

fn three_spheres() -> Tree {
    max(min(sphere(false, false, 2.75), sphere(true, false, 4.)), sphere(true, true, 5.25))
}

fn trig_fraction() -> Tree {
    pow(log(tree::add(sin(var('x')), num(2.))), num(3.)) / tree::add(cos(var('x')), num(2.))
}

fn trig_square(c: char) -> Tree {
    tree::add(
        pow(sin(var(c)), num(2.)),
        tree::add(pow(cos(var(c)), num(2.)), num(2.) * (sin(var(c)) * cos(var(c)))),
    )
}

#[test]
fn t_variable_in_deftree() {
    let lisp = tree::add(num(1.), tree::add(cos(var('x')), pow(cos(var('x')), num(2.))));
    let cx = cos(var('x'));
    let with_vars = tree::add(num(1.), tree::add(cx.clone(), pow(cx, num(2.))));
    assert_eq!(lisp, with_vars);
    compare_trees(&lisp, &with_vars, &[('x', -5., 5.)], 100, 0.);
    let tree = tree::add(
        {
            let three: Tree = num(3.0);
            three * pow(var('x'), num(2.0))
        },
        tree::add(num(2.) * var('x'), num(1.)),
    );
    let expected = tree::add(num(3.) * pow(var('x'), num(2.)), tree::add(num(2.) * var('x'), num(1.)));
    assert_eq!(tree, expected);
    compare_trees(&expected, &tree, &[('x', -5., 5.)], 100, 0.);
}

#[test]
fn t_constant() {
    let x = num(std::f64::consts::PI);
    assert_eq!(x.root(), &Node::Constant(std::f64::consts::PI.to_bits()));
    let mut eval = Evaluator::new(&x);
    match run(&mut eval) {
        Ok(val) => assert_eq!(val, std::f64::consts::PI),
        _ => assert!(false),
    }
}

#[test]
fn t_pythagoras() {
    const TRIPLETS: [(f64, f64, f64); 6] = [
        (3., 4., 5.),
        (5., 12., 13.),
        (8., 15., 17.),
        (7., 24., 25.),
        (20., 21., 29.),
        (12., 35., 37.),
    ];
    let h = sqrt(tree::add(pow(var('x'), num(2.)), pow(var('y'), num(2.))));
    let mut eval = Evaluator::new(&h);
    for (x, y, expected) in TRIPLETS {
        eval.set_var('x', x);
        eval.set_var('y', y);
        match run(&mut eval) {
            Ok(val) => assert_eq!(val, expected),
            _ => assert!(false),
        }
    }
}

#[test]
fn pythagoras_with_multiply() {
    let h = sqrt(tree::add(var('x') * var('x'), var('y') * var('y')));
    let mut eval = Evaluator::new(&h);
    for (x, y, expected) in [(3., 4., 5.), (5., 12., 13.), (8., 15., 17.), (7., 24., 25.), (20., 21., 29.), (12., 35., 37.)] {
        eval.set_var('x', x);
        eval.set_var('y', y);
        assert_eq!(run(&mut eval).unwrap(), expected);
    }
}

#[test]
fn t_trig_identity() {
    const PI_2: f64 = 2.0 * std::f64::consts::TAU;
    let sum = tree::add(pow(sin(var('x')), num(2.)), pow(cos(var('x')), num(2.)));
    let mut eval = Evaluator::new(&sum);
    let mut rng = StdRng::seed_from_u64(42);
    for _ in 0..100 {
        let x: f64 = PI_2 * rng.gen::<f64>();
        eval.set_var('x', x);
        match run(&mut eval) {
            Ok(val) => assert_close(val, 1., f64::EPSILON),
            _ => assert!(false),
        }
    }
}

#[test]
fn t_sum_test() {
    check_tree_eval(
        tree::add(var('x'), var('y')),
        |vars: &[f64]| if let [x, y] = vars[..] { Some(x + y) } else { None },
        &[('x', -5., 5.), ('y', -5., 5.)],
        10,
        0.,
    );
}

#[test]
fn t_evaluate_trees_1() {
    check_tree_eval(
        trig_fraction(),
        |vars: &[f64]| {
            if let [x] = vars[..] {
                Some(f64::powf(f64::log(f64::sin(x) + 2., std::f64::consts::E), 3.) / (f64::cos(x) + 2.))
            } else {
                None
            }
        },
        &[('x', -2.5, 2.5)],
        100,
        0.,
    );
}

#[test]
fn t_evaluate_trees_2() {
    check_tree_eval(
        three_spheres(),
        |vars: &[f64]| {
            if let [x, y, z] = vars[..] {
                let s1 = f64::sqrt(f64::powf(x - 2., 2.) + f64::powf(y - 3., 2.) + f64::powf(z - 4., 2.)) - 2.75;
                let s2 = f64::sqrt(f64::powf(x + 2., 2.) + f64::powf(y - 3., 2.) + f64::powf(z - 4., 2.)) - 4.;
                let s3 = f64::sqrt(f64::powf(x + 2., 2.) + f64::powf(y + 3., 2.) + f64::powf(z - 4., 2.)) - 5.25;
                Some(f64::max(f64::min(s1, s2), s3))
            } else {
                None
            }
        },
        &[('x', -10., 10.), ('y', -9., 10.), ('z', -11., 12.)],
        20,
        1e-14,
    );
}

#[test]
fn unbound_variable_is_reported() {
    let t = sqrt(var('x'));
    let mut eval: Evaluator<f64> = Evaluator::new(&t);
    assert_eq!(run(&mut eval), Err(EvaluationError::VariableNotFound('x')));
}

#[test]
fn first_unbound_variable_in_node_order() {
    let t = tree::add(var('a'), var('b'));
    let mut eval: Evaluator<f64> = Evaluator::new(&t);
    eval.set_var('b', 1.0);
    assert_eq!(run(&mut eval), Err(EvaluationError::VariableNotFound('a')));
    eval.set_var('a', 2.0);
    assert_eq!(run(&mut eval), Ok(3.0));
    // A later binding overwrites the earlier one.
    eval.set_var('a', 5.0);
    assert_eq!(run(&mut eval), Ok(6.0));
}

#[test]
fn deduplication_1() {
    let tree = three_spheres();
    let nodup = tree.clone().deduplicate().unwrap();
    assert!(tree.len() > nodup.len());
    assert_eq!(nodup.len(), 32);
    compare_trees(&tree, &nodup, &[('x', -10., 10.), ('y', -9., 10.), ('z', -11., 12.)], 20, 0.);
}

#[test]
fn deduplication_2() {
    let tree = trig_fraction();
    let nodup = tree.clone().deduplicate().unwrap();
    assert!(tree.len() > nodup.len());
    assert_eq!(nodup.len(), 10);
    compare_trees(&tree, &nodup, &[('x', -10., 10.)], 400, 0.);
}

#[test]
fn deduplication_3() {
    let tree = trig_square('x') / trig_square('y');
    let nodup = tree.clone().deduplicate().unwrap();
    assert!(tree.len() > nodup.len());
    assert_eq!(nodup.len(), 20);
    compare_trees(&tree, &nodup, &[('x', -10., 10.), ('y', -9., 10.)], 20, 0.);
}

#[test]
fn deduplication_is_idempotent() {
    for tree in [three_spheres(), trig_fraction(), trig_square('x') / trig_square('y')] {
        let once = tree.clone().deduplicate().unwrap();
        let twice = once.clone().deduplicate().unwrap();
        assert_eq!(once.len(), twice.len());
        assert!(once.len() <= tree.len());
        compare_trees(&once, &twice, &[('x', -3., 3.), ('y', -3., 3.), ('z', -3., 3.)], 4, 0.);
    }
}

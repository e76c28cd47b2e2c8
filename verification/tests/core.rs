use matrux::{
    Activation, ActivationKind, Linear, Matrix, MatrixMap, MatrixPlan, NeuralNetworkBuilder,
    Optimizer, PlanError, Scalar, StochasticGradientDescent,
};

#[derive(Clone, Copy, Debug, PartialEq)]
struct F64(f64);

impl Scalar for F64 {
    fn add(a: Self, b: Self) -> Self {
        F64(a.0 + b.0)
    }
    fn sub(a: Self, b: Self) -> Self {
        F64(a.0 - b.0)
    }
    fn mul(a: Self, b: Self) -> Self {
        F64(a.0 * b.0)
    }
    fn div(a: Self, b: Self) -> Self {
        F64(a.0 / b.0)
    }
    fn neg(a: Self) -> Self {
        F64(-a.0)
    }
    fn power(base: Self, exponent: Self) -> Self {
        F64(base.0.powf(exponent.0))
    }
    fn lt(a: Self, b: Self) -> bool {
        a.0 < b.0
    }
    fn gt(a: Self, b: Self) -> bool {
        a.0 > b.0
    }
    fn is_nan(a: Self) -> bool {
        a.0.is_nan()
    }
    fn from_count(n: usize) -> Self {
        F64(n as f64)
    }
    fn euler() -> Self {
        F64(std::f64::consts::E)
    }

    fn add_s(a: Self, b: Self) -> Self {
        Self::add(a, b)
    }
    fn sub_s(a: Self, b: Self) -> Self {
        Self::sub(a, b)
    }
    fn mul_s(a: Self, b: Self) -> Self {
        Self::mul(a, b)
    }
    fn div_s(a: Self, b: Self) -> Self {
        Self::div(a, b)
    }
    fn neg_s(a: Self) -> Self {
        Self::neg(a)
    }
    fn pow_s(base: Self, exponent: Self) -> Self {
        Self::power(base, exponent)
    }
    fn lt_s(a: Self, b: Self) -> bool {
        Self::lt(a, b)
    }
    fn gt_s(a: Self, b: Self) -> bool {
        Self::gt(a, b)
    }
    fn nan_s(a: Self) -> bool {
        Self::is_nan(a)
    }
    fn from_count_s(n: usize) -> Self {
        Self::from_count(n)
    }
    fn euler_s() -> Self {
        Self::euler()
    }
}

fn mat(rows: usize, cols: usize, entries: &[f64]) -> Matrix<F64> {
    assert_eq!(entries.len(), rows * cols);
    let mut m = Matrix::new(rows, cols);
    for r in 0..rows {
        for c in 0..cols {
            m.set(r, c, F64(entries[r * cols + c]));
        }
    }
    m
}

fn entries(m: &Matrix<F64>) -> Vec<f64> {
    let mut out = vec![];
    for r in 0..m.rows() {
        for c in 0..m.cols() {
            out.push(m.get(r, c).0);
        }
    }
    out
}

#[test]
fn matrix_product_values() {
    let a = mat(2, 3, &[1.0, 2.0, 3.0, 4.0, 5.0, 6.0]);
    let b = mat(3, 2, &[7.0, 8.0, 9.0, 10.0, 11.0, 12.0]);
    let p = a.mul(&b);
    assert_eq!(p.rows(), 2);
    assert_eq!(p.cols(), 2);
    assert_eq!(entries(&p), vec![58.0, 64.0, 139.0, 154.0]);
}

#[test]
fn product_shape_and_construction_failure() {
    let mut g: MatrixPlan<F64> = MatrixPlan::new();
    let a = g.input(2, 3, "a".to_string());
    let b = g.input(3, 4, "b".to_string());
    let m = g.mul(a, b).unwrap();
    assert_eq!(g.rows(m), 2);
    assert_eq!(g.cols(m), 4);
    // incompatible shapes fail at construction, not execution
    assert!(matches!(g.mul(b, a), Err(PlanError::ShapeMismatch { .. })));

    let mut binds = MatrixMap::new();
    binds.insert("a".to_string(), mat(2, 3, &[1.0; 6]));
    binds.insert("b".to_string(), mat(3, 4, &[2.0; 12]));
    let (value, _taps) = g.execute_cpu(m, &binds).unwrap();
    assert_eq!(value.rows(), 2);
    assert_eq!(value.cols(), 4);
    assert_eq!(entries(&value), vec![6.0; 8]);
}

#[test]
fn shared_node_evaluates_once() {
    let mut g: MatrixPlan<F64> = MatrixPlan::new();
    let x = g.input(2, 2, "x".to_string());
    let s = g.sigmoid(x);
    let doubled = g.add(s, s).unwrap();
    let mut binds = MatrixMap::new();
    binds.insert("x".to_string(), mat(2, 2, &[0.0, 1.0, -1.0, 2.0]));
    let (_value, _taps, counts) =
        matrux::plan::cpu_eval::MatrixPlanCPUContext::execute_counting(&g, doubled, &binds)
            .unwrap();
    // the sigmoid node is a child of the add node twice: evaluated once
    assert_eq!(counts[s], 1);
}

#[test]
fn combine_returns_all_taps() {
    let mut g: MatrixPlan<F64> = MatrixPlan::new();
    let mut tapped = vec![];
    let mut plain = vec![];
    for i in 0..3 {
        let c = g.constant(mat(1, 1, &[i as f64 + 1.0]));
        plain.push(c);
        tapped.push(g.output(c, format!("t{}", i)));
    }
    let root = g.merge_outputs(tapped);
    let binds = MatrixMap::new();
    let (_value, taps) = g.execute_cpu(root, &binds).unwrap();
    assert_eq!(taps.len(), 3);
    for i in 0..3 {
        let direct = g.execute_cpu(plain[i], &binds).unwrap().0;
        let via_tap = taps.get(&format!("t{}", i)).unwrap();
        assert_eq!(entries(via_tap), entries(&direct));
    }
}

#[test]
fn transpose_round_trip() {
    let m = mat(2, 3, &[1.0, 2.0, 3.0, 4.0, 5.0, 6.0]);
    let t = m.transpose();
    assert_eq!(t.rows(), 3);
    assert_eq!(t.cols(), 2);
    assert_eq!(entries(&t), vec![1.0, 4.0, 2.0, 5.0, 3.0, 6.0]);
    let back = t.transpose();
    assert_eq!(back.rows(), 2);
    assert_eq!(back.cols(), 3);
    assert_eq!(entries(&back), entries(&m));
}

#[test]
fn sigmoid_open_interval_and_sign_range() {
    let inputs = [-20.0, -3.0, -0.5, 0.0, 0.5, 3.0, 20.0];
    let m = mat(1, 7, &inputs);
    let s = m.sigmoid();
    for v in entries(&s) {
        assert!(v > 0.0 && v < 1.0);
    }
    let m = mat(1, 7, &inputs);
    let sg = m.sign();
    for v in entries(&sg) {
        assert!(v == -1.0 || v == 0.0 || v == 1.0);
    }
    assert_eq!(entries(&mat(1, 3, &[-4.5, 0.0, 7.0]).sign()), vec![-1.0, 0.0, 1.0]);
}

#[test]
fn sigmoid_exact_midpoint() {
    let s = mat(1, 1, &[0.0]).sigmoid();
    assert_eq!(entries(&s), vec![0.5]);
}

#[test]
fn backprop_single_linear_layer() {
    let a = 0.25;
    let b = -0.5;
    let x = 3.0;
    let t = 2.0;
    let mut network = NeuralNetworkBuilder::<F64>::new()
        .input(2)
        .add_dense_layer_weighted(mat(1, 2, &[a, b]), Linear);
    let root = network.plan_backprop(1);
    let mut binds = MatrixMap::new();
    binds.insert("inputs".to_string(), mat(2, 1, &[x, 1.0]));
    binds.insert("targets".to_string(), mat(1, 1, &[t]));
    network.fill_plan_weights(&mut binds);
    let (_value, taps) = network.plan_graph().execute_cpu(root, &binds).unwrap();
    let outputs = taps.get("outputs").unwrap();
    let expected = a * x + b;
    assert_eq!(entries(outputs), vec![expected]);
    let gradient = taps.get("gradient_0").unwrap();
    assert_eq!(gradient.rows(), 1);
    assert_eq!(gradient.cols(), 2);
    let err = expected - t;
    assert_eq!(entries(gradient), vec![err * x, err * 1.0]);
}

#[test]
fn eval_two_linear_layers() {
    let network = NeuralNetworkBuilder::<F64>::new()
        .input(2)
        .add_dense_layer_weighted(mat(2, 2, &[1.0, 0.0, 0.0, 1.0]), Linear)
        .add_dense_layer_weighted(mat(1, 2, &[2.0, 3.0]), Linear);
    let out = network.eval(&vec![F64(4.0), F64(5.0)]);
    assert_eq!(out.len(), 1);
    assert_eq!(out[0].0, 2.0 * 4.0 + 3.0 * 5.0);
}

#[test]
fn optimizer_skips_nan_gradient() {
    let mut sgd = StochasticGradientDescent::new(F64(0.1));
    let weights = mat(1, 2, &[1.0, 2.0]);
    let gradient = mat(1, 2, &[f64::NAN, 1.0]);
    let out = sgd.optimize(weights, gradient, 0);
    assert_eq!(entries(&out), vec![1.0, 2.0]);
}

#[test]
fn optimizer_steps_and_clamps() {
    let mut sgd = StochasticGradientDescent::new(F64(0.5));
    let out = sgd.optimize(mat(1, 2, &[1.0, 2.0]), mat(1, 2, &[1.0, -2.0]), 0);
    assert_eq!(entries(&out), vec![0.5, 3.0]);
    sgd.norm();
    let out = sgd.optimize(mat(1, 2, &[1.0, 2.0]), mat(1, 2, &[1.0, -2.0]), 0);
    assert_eq!(entries(&out), vec![0.5, 1.0]);
    sgd.set_minimum(F64(0.75));
    let out = sgd.optimize(mat(1, 2, &[1.0, 2.0]), mat(1, 2, &[1.0, -2.0]), 0);
    assert_eq!(entries(&out), vec![0.75, 1.0]);
}

#[test]
fn missing_input_is_fatal() {
    let mut g: MatrixPlan<F64> = MatrixPlan::new();
    let foo = g.input(1, 1, "foo".to_string());
    let n = g.neg(foo);
    let binds = MatrixMap::new();
    match g.execute_cpu(n, &binds) {
        Err(PlanError::MissingInput { name }) => assert_eq!(name, "foo"),
        _ => panic!("expected a missing-input failure"),
    }
}

#[test]
fn relu_and_scale_and_hadamard() {
    let m = mat(1, 4, &[-2.0, -0.5, 0.5, 2.0]);
    let r = m.max(F64(0.0));
    assert_eq!(entries(&r), vec![0.0, 0.0, 0.5, 2.0]);
    let s = mat(1, 3, &[1.0, -2.0, 3.0]).scale(F64(2.0));
    assert_eq!(entries(&s), vec![2.0, -4.0, 6.0]);
    let h = mat(1, 3, &[1.0, 2.0, 3.0]).hadamard_mul(&mat(1, 3, &[4.0, 5.0, 6.0]));
    assert_eq!(entries(&h), vec![4.0, 10.0, 18.0]);
    let d = mat(1, 2, &[5.0, 1.0]).sub(&mat(1, 2, &[2.0, 4.0]));
    assert_eq!(entries(&d), vec![3.0, -3.0]);
}

#[test]
fn relu_activation_in_network() {
    let network = NeuralNetworkBuilder::<F64>::new()
        .input(1)
        .add_dense_layer_weighted(mat(2, 1, &[1.0, -1.0]), matrux::Relu)
        .add_dense_layer_weighted(mat(1, 2, &[1.0, 1.0]), Linear);
    // relu(-3) = 0, relu(3) = 3
    let out = network.eval(&vec![F64(3.0)]);
    assert_eq!(out[0].0, 3.0);
    let out = network.eval(&vec![F64(-3.0)]);
    assert_eq!(out[0].0, 3.0);
}

#[test]
fn inputs_lists_distinct_leaves() {
    let mut g: MatrixPlan<F64> = MatrixPlan::new();
    let a = g.input(2, 3, "a".to_string());
    let b = g.input(3, 1, "b".to_string());
    let m = g.mul(a, b).unwrap();
    let s = g.add(m, m).unwrap();
    let listed = g.inputs(s);
    assert_eq!(listed.len(), 2);
    assert!(listed.contains(&("a".to_string(), (2, 3))));
    assert!(listed.contains(&("b".to_string(), (3, 1))));
}

#[test]
fn activation_kinds_are_named() {
    assert_eq!(Activation::kind(&Linear), ActivationKind::Linear);
    assert_eq!(Activation::kind(&matrux::Relu), ActivationKind::Relu);
    assert_eq!(Activation::kind(&matrux::Sigmoid), ActivationKind::Sigmoid);
}

#[test]
fn training_reduces_error_on_a_line() {
    // learn f(x) = 1.5 x + 5 with a single linear layer over [x, 1]
    let pts: Vec<(f64, f64)> = (0..8).map(|i| (i as f64 - 4.0, 1.5 * (i as f64 - 4.0) + 5.0)).collect();
    let mut inputs = Matrix::<F64>::new(2, pts.len());
    let mut targets = Matrix::<F64>::new(1, pts.len());
    for (i, (x, y)) in pts.iter().enumerate() {
        inputs.set(0, i, F64(*x));
        inputs.set(1, i, F64(1.0));
        targets.set(0, i, F64(*y));
    }
    let mut network = NeuralNetworkBuilder::<F64>::new()
        .input(2)
        .add_dense_layer_weighted(mat(1, 2, &[0.0, 0.0]), Linear);
    let root = network.plan_backprop(pts.len());
    let mut sgd = StochasticGradientDescent::new(F64(0.01));
    for _ in 0..500 {
        let mut binds = MatrixMap::new();
        binds.insert("inputs".to_string(), inputs.duplicate());
        binds.insert("targets".to_string(), targets.duplicate());
        network.fill_plan_weights(&mut binds);
        let (_v, taps) = network.plan_graph().execute_cpu(root, &binds).unwrap();
        let grad = taps.get("gradient_0").unwrap().duplicate();
        network.apply_backprop(&mut sgd, vec![grad]);
    }
    let out = network.eval(&vec![F64(2.0), F64(1.0)]);
    assert!((out[0].0 - 8.0).abs() < 0.05);
}

use gradnet::label::numbered;
use gradnet::scalar::{
    gated, power_slope, rectified, sigmoid, sigmoid_slope, tanh_slope, Scalar,
};
use gradnet::value::{Graph, Value};

#[derive(Clone, Copy, Debug, PartialEq)]
struct Real(f64);

impl Scalar for Real {
    fn from_int(n: i64) -> Self {
        Real(n as f64)
    }

    fn add(&self, rhs: &Self) -> Self {
        Real(self.0 + rhs.0)
    }

    fn sub(&self, rhs: &Self) -> Self {
        Real(self.0 - rhs.0)
    }

    fn mul(&self, rhs: &Self) -> Self {
        Real(self.0 * rhs.0)
    }

    fn div(&self, rhs: &Self) -> Self {
        Real(self.0 / rhs.0)
    }

    fn neg(&self) -> Self {
        Real(-self.0)
    }

    fn exp(&self) -> Self {
        Real(self.0.exp())
    }

    fn powf(&self, exponent: &Self) -> Self {
        Real(self.0.powf(exponent.0))
    }

    fn tanh(&self) -> Self {
        Real(self.0.tanh())
    }

    fn less_than(&self, rhs: &Self) -> bool {
        self.0 < rhs.0
    }

    fn text(&self) -> String {
        format!("{}", self.0)
    }
}

#[test]
fn shared_operand_gets_both_shares() {
    let mut graph: Graph<Real> = Graph::new();
    let a = Value::new(&mut graph, Real(3.0), "a");
    let c = a.add(&mut graph, a);
    c.backward(&mut graph);
    assert_eq!(a.gradient(&graph), Real(2.0));
    assert_eq!(c.gradient(&graph), Real(1.0));
    assert_eq!(c.value(&graph), Real(6.0));
    assert_eq!(c.label(&graph), "a + a");
}

#[test]
fn leaf_starts_without_gradient() {
    let mut graph: Graph<Real> = Graph::new();
    assert_eq!(graph.len(), 0);
    let a = Value::new(&mut graph, Real(-7.5), "a");
    assert_eq!(graph.len(), 1);
    assert_eq!(a.index(), 0);
    assert_eq!(a.value(&graph), Real(-7.5));
    assert_eq!(a.data(&graph), Real(-7.5));
    assert_eq!(a.gradient(&graph), Real(0.0));
    assert_eq!(a.label(&graph), "a");
    let b = Value::new(&mut graph, Real(1.0), String::from("second").as_str());
    assert_eq!(b.index(), 1);
    assert_eq!(b.label(&graph), "second");
}

#[test]
fn operators_compute_values_and_labels() {
    let mut graph: Graph<Real> = Graph::new();
    let a = Value::new(&mut graph, Real(3.0), "a");
    let b = Value::new(&mut graph, Real(-2.0), "b");
    let sum = a.add(&mut graph, b);
    let difference = a.sub(&mut graph, b);
    let product = a.mul(&mut graph, b);
    let power = a.pow(&mut graph, Real(2.0));
    let tanh = b.tanh(&mut graph);
    let sigmoid = b.sigmoid(&mut graph);
    let relu = b.relu(&mut graph);
    assert_eq!(sum.value(&graph), Real(1.0));
    assert_eq!(difference.value(&graph), Real(5.0));
    assert_eq!(product.value(&graph), Real(-6.0));
    assert_eq!(power.value(&graph), Real(9.0));
    assert_eq!(tanh.value(&graph), Real((-2.0f64).tanh()));
    assert_eq!(sigmoid.value(&graph), Real(1.0 / (1.0 + (2.0f64).exp())));
    assert_eq!(relu.value(&graph), Real(0.0));
    assert_eq!(sum.label(&graph), "a + b");
    assert_eq!(difference.label(&graph), "a - b");
    assert_eq!(product.label(&graph), "a * b");
    assert_eq!(power.label(&graph), "a^2");
    assert_eq!(tanh.label(&graph), "tanh(b)");
    assert_eq!(sigmoid.label(&graph), "sigmoid(b)");
    assert_eq!(relu.label(&graph), "ReLu(b)");
    let half = a.pow(&mut graph, Real(0.5));
    assert_eq!(half.label(&graph), "a^0.5");
    // operands stay usable, and every new node comes behind the old ones
    assert_eq!(graph.len(), 10);
    assert_eq!(half.index(), 9);
    for v in [sum, difference, product, power, tanh, sigmoid, relu, half] {
        assert_eq!(v.gradient(&graph), Real(0.0));
    }
    assert_eq!(a.value(&graph), Real(3.0));
    assert_eq!(b.value(&graph), Real(-2.0));
}

#[test]
fn relu_keeps_what_is_not_below_zero() {
    let mut graph: Graph<Real> = Graph::new();
    let zero = Value::new(&mut graph, Real(0.0), "z");
    let up = Value::new(&mut graph, Real(2.5), "u");
    let nan = Value::new(&mut graph, Real(f64::NAN), "n");
    assert_eq!(zero.relu(&mut graph).value(&graph), Real(0.0));
    assert_eq!(up.relu(&mut graph).value(&graph), Real(2.5));
    assert!(nan.relu(&mut graph).value(&graph).0.is_nan());
}

#[test]
fn backward_leaves_other_nodes_alone() {
    let mut graph: Graph<Real> = Graph::new();
    let a = Value::new(&mut graph, Real(2.0), "a");
    let b = Value::new(&mut graph, Real(3.0), "b");
    let c = Value::new(&mut graph, Real(4.0), "c");
    let ab = a.mul(&mut graph, b);
    let bc = b.mul(&mut graph, c);
    let late = ab.add(&mut graph, bc);
    ab.backward(&mut graph);
    assert_eq!(ab.gradient(&graph), Real(1.0));
    assert_eq!(a.gradient(&graph), Real(3.0));
    assert_eq!(b.gradient(&graph), Real(2.0));
    assert_eq!(c.gradient(&graph), Real(0.0));
    assert_eq!(bc.gradient(&graph), Real(0.0));
    assert_eq!(late.gradient(&graph), Real(0.0));
    // values, labels and the number of nodes stay
    assert_eq!(graph.len(), 6);
    assert_eq!(ab.value(&graph), Real(6.0));
    assert_eq!(late.label(&graph), "a * b + b * c");
}

#[test]
fn backward_adds_to_what_was_gathered_before() {
    let mut graph: Graph<Real> = Graph::new();
    let a = Value::new(&mut graph, Real(2.0), "a");
    let b = Value::new(&mut graph, Real(3.0), "b");
    let p = a.mul(&mut graph, b);
    let q = p.pow(&mut graph, Real(2.0));
    q.backward(&mut graph);
    assert_eq!(q.gradient(&graph), Real(1.0));
    assert_eq!(p.gradient(&graph), Real(12.0));
    assert_eq!(a.gradient(&graph), Real(36.0));
    assert_eq!(b.gradient(&graph), Real(24.0));
    // a second pass seeds the start anew and adds to everything below it
    q.backward(&mut graph);
    assert_eq!(q.gradient(&graph), Real(1.0));
    assert_eq!(p.gradient(&graph), Real(24.0));
    assert_eq!(a.gradient(&graph), Real(36.0 + 72.0));
    assert_eq!(b.gradient(&graph), Real(24.0 + 48.0));
}

#[test]
fn node_waits_for_all_of_its_users() {
    // x feeds s directly and through t; s must hand on only once it holds both shares
    let mut graph: Graph<Real> = Graph::new();
    let x = Value::new(&mut graph, Real(3.0), "x");
    let s = x.mul(&mut graph, x);
    let t = s.mul(&mut graph, s);
    let out = t.add(&mut graph, s);
    out.backward(&mut graph);
    // out = s^2 + s with s = x^2: d out / d s = 2 s + 1, d out / d x = (2 s + 1) * 2 x
    assert_eq!(s.gradient(&graph), Real(19.0));
    assert_eq!(x.gradient(&graph), Real(114.0));
}

#[test]
fn subtraction_takes_the_gradient_off_the_second_operand() {
    let mut graph: Graph<Real> = Graph::new();
    let a = Value::new(&mut graph, Real(1.0), "a");
    let d = a.sub(&mut graph, a);
    d.backward(&mut graph);
    assert_eq!(d.value(&graph), Real(0.0));
    assert_eq!(a.gradient(&graph), Real(0.0));
}

#[test]
fn nudge_steps_against_the_gradient_and_clears_it() {
    let mut graph: Graph<Real> = Graph::new();
    let a = Value::new(&mut graph, Real(2.0), "a");
    let b = Value::new(&mut graph, Real(5.0), "b");
    let p = a.mul(&mut graph, b);
    p.backward(&mut graph);
    a.nudge(&mut graph, Real(0.1));
    assert_eq!(a.value(&graph), Real(2.0 - 0.1 * 5.0));
    assert_eq!(a.gradient(&graph), Real(0.0));
    assert_eq!(a.label(&graph), "a");
    assert_eq!(b.value(&graph), Real(5.0));
    assert_eq!(b.gradient(&graph), Real(2.0));
    assert_eq!(p.value(&graph), Real(10.0));
    assert_eq!(p.gradient(&graph), Real(1.0));
    // without a gradient the step changes nothing
    a.nudge(&mut graph, Real(0.1));
    assert_eq!(a.value(&graph), Real(1.5));
    assert_eq!(a.gradient(&graph), Real(0.0));
}

#[test]
fn set_data_replaces_the_value_only() {
    let mut graph: Graph<Real> = Graph::new();
    let a = Value::new(&mut graph, Real(2.0), "a");
    let b = a.add(&mut graph, a);
    b.backward(&mut graph);
    a.set_data(&mut graph, Real(9.0));
    assert_eq!(a.data(&graph), Real(9.0));
    assert_eq!(a.value(&graph), Real(9.0));
    assert_eq!(a.gradient(&graph), Real(2.0));
    assert_eq!(a.label(&graph), "a");
    assert_eq!(b.value(&graph), Real(4.0));
    assert_eq!(graph.len(), 2);
}

#[test]
fn sum_adds_from_zero_in_order() {
    let mut graph: Graph<Real> = Graph::new();
    let a = Value::new(&mut graph, Real(0.1), "a");
    let b = Value::new(&mut graph, Real(0.2), "b");
    let c = Value::new(&mut graph, Real(0.3), "c");
    let total = Value::sum(&mut graph, &[a, b, c]);
    assert_eq!(total.value(&graph), Real(((0.0 + 0.1) + 0.2) + 0.3));
    assert_eq!(total.label(&graph), "SUM + a + b + c");
    assert_eq!(graph.len(), 7);
    assert_eq!(total.index(), 6);
    total.backward(&mut graph);
    assert_eq!(a.gradient(&graph), Real(1.0));
    assert_eq!(c.gradient(&graph), Real(1.0));
    let empty = Value::sum(&mut graph, &[]);
    assert_eq!(empty.value(&graph), Real(0.0));
    assert_eq!(empty.label(&graph), "SUM");
    assert_eq!(empty.index(), 7);
}

#[test]
fn truncate_releases_the_nodes_behind_a_mark() {
    let mut graph: Graph<Real> = Graph::new();
    let a = Value::new(&mut graph, Real(1.0), "a");
    let mark = graph.len();
    let b = a.add(&mut graph, a);
    let c = b.mul(&mut graph, a);
    assert!(graph.contains(c));
    graph.truncate(mark);
    assert_eq!(graph.len(), 1);
    assert!(graph.contains(a));
    assert!(!graph.contains(b));
    assert!(!graph.contains(c));
    assert_eq!(a.value(&graph), Real(1.0));
    // a mark beyond the end leaves the graph alone
    graph.truncate(5);
    assert_eq!(graph.len(), 1);
    graph.truncate(0);
    assert_eq!(graph.len(), 0);
    assert!(!graph.contains(a));
}

#[test]
fn numbered_writes_decimal_digits() {
    assert_eq!(numbered("w", 1), "w1");
    assert_eq!(numbered("y", 0), "y0");
    assert_eq!(numbered("w", 10), "w10");
    assert_eq!(numbered("", 9076), "9076");
    assert_eq!(numbered("n", 1234567890), "n1234567890");
    assert_eq!(numbered("m", usize::MAX), format!("m{}", usize::MAX));
}

#[test]
fn scalar_formulas() {
    let y = 1.0 / (1.0 + (-0.75f64).exp());
    assert_eq!(sigmoid(Real(0.75)), Real(y));
    assert_eq!(sigmoid(Real(0.0)), Real(0.5));
    assert_eq!(rectified(Real(-1.0)), Real(0.0));
    assert_eq!(rectified(Real(4.0)), Real(4.0));
    assert_eq!(power_slope(Real(2.0), Real(3.0)), Real(12.0));
    assert_eq!(power_slope(Real(5.0), Real(1.0)), Real(1.0));
    assert_eq!(tanh_slope(Real(0.5)), Real(0.75));
    assert_eq!(sigmoid_slope(Real(0.25)), Real(0.1875));
    assert_eq!(gated(Real(0.5), Real(7.0)), Real(7.0));
    assert_eq!(gated(Real(0.0), Real(7.0)), Real(0.0));
    assert_eq!(gated(Real(-0.5), Real(7.0)), Real(0.0));
}

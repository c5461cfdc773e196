use gradnet::scalar::Scalar;
use gradnet::value::{Graph, Value};

#[derive(Clone, Copy, Debug, PartialEq)]
struct Real(f64);

impl Scalar for Real {
    fn from_int(n: i64) -> Self {
        Real(n as f64)
    }

    fn add(&self, rhs: &Self) -> Self {
        Real(self.0 + rhs.0)
    }

    fn sub(&self, rhs: &Self) -> Self {
        Real(self.0 - rhs.0)
    }

    fn mul(&self, rhs: &Self) -> Self {
        Real(self.0 * rhs.0)
    }

    fn div(&self, rhs: &Self) -> Self {
        Real(self.0 / rhs.0)
    }

    fn neg(&self) -> Self {
        Real(-self.0)
    }

    fn exp(&self) -> Self {
        Real(self.0.exp())
    }

    fn powf(&self, exponent: &Self) -> Self {
        Real(self.0.powf(exponent.0))
    }

    fn tanh(&self) -> Self {
        Real(self.0.tanh())
    }

    fn less_than(&self, rhs: &Self) -> bool {
        self.0 < rhs.0
    }

    fn text(&self) -> String {
        format!("{}", self.0)
    }
}

/// Builds `f` on leaves with the values `at` and hands back its value.
fn value_of(f: fn(&mut Graph<Real>, &[Value]) -> Value, at: &[f64]) -> f64 {
    let mut graph: Graph<Real> = Graph::new();
    let leaves: Vec<Value> = at
        .iter()
        .map(|v| Value::new(&mut graph, Real(*v), "x"))
        .collect();
    let out = f(&mut graph, &leaves);
    out.value(&graph).0
}

/// The gradients that a backward pass from `f` leaves on its leaves.
fn gradients_of(f: fn(&mut Graph<Real>, &[Value]) -> Value, at: &[f64]) -> Vec<f64> {
    let mut graph: Graph<Real> = Graph::new();
    let leaves: Vec<Value> = at
        .iter()
        .map(|v| Value::new(&mut graph, Real(*v), "x"))
        .collect();
    let out = f(&mut graph, &leaves);
    out.backward(&mut graph);
    leaves.iter().map(|l| l.gradient(&graph).0).collect()
}

/// Holds the gradients of `f` at `at` against central differences.
fn agrees_with_differences(f: fn(&mut Graph<Real>, &[Value]) -> Value, at: &[f64]) {
    let h = 1e-6;
    let analytic = gradients_of(f, at);
    for k in 0..at.len() {
        let mut up = at.to_vec();
        let mut down = at.to_vec();
        up[k] += h;
        down[k] -= h;
        let estimate = (value_of(f, &up) - value_of(f, &down)) / (2.0 * h);
        assert!(
            (estimate - analytic[k]).abs() < 1e-4,
            "input {k}: estimate {estimate}, gradient {}",
            analytic[k]
        );
    }
}

fn sum_of_two(graph: &mut Graph<Real>, x: &[Value]) -> Value {
    x[0].add(graph, x[1])
}

fn difference_of_two(graph: &mut Graph<Real>, x: &[Value]) -> Value {
    x[0].sub(graph, x[1])
}

fn product_of_two(graph: &mut Graph<Real>, x: &[Value]) -> Value {
    x[0].mul(graph, x[1])
}

fn cube(graph: &mut Graph<Real>, x: &[Value]) -> Value {
    x[0].pow(graph, Real(3.0))
}

fn root(graph: &mut Graph<Real>, x: &[Value]) -> Value {
    x[0].pow(graph, Real(0.5))
}

fn tanh_of(graph: &mut Graph<Real>, x: &[Value]) -> Value {
    x[0].tanh(graph)
}

fn sigmoid_of(graph: &mut Graph<Real>, x: &[Value]) -> Value {
    x[0].sigmoid(graph)
}

fn relu_of(graph: &mut Graph<Real>, x: &[Value]) -> Value {
    x[0].relu(graph)
}

fn square_plus_cube(graph: &mut Graph<Real>, x: &[Value]) -> Value {
    let a = x[0];
    let square = a.mul(graph, a);
    let cube = a.mul(graph, a).mul(graph, a);
    square.add(graph, cube)
}

fn mixed(graph: &mut Graph<Real>, x: &[Value]) -> Value {
    // tanh(x0 * x1 - x2) * sigmoid(x0) + relu(x1) ^ 2
    let left = x[0].mul(graph, x[1]).sub(graph, x[2]).tanh(graph);
    let gate = x[0].sigmoid(graph);
    let right = x[1].relu(graph).pow(graph, Real(2.0));
    left.mul(graph, gate).add(graph, right)
}

#[test]
fn add_gradient_matches_differences() {
    agrees_with_differences(sum_of_two, &[1.5, -2.25]);
    assert_eq!(gradients_of(sum_of_two, &[1.5, -2.25]), vec![1.0, 1.0]);
}

#[test]
fn sub_gradient_matches_differences() {
    agrees_with_differences(difference_of_two, &[1.5, -2.25]);
    assert_eq!(gradients_of(difference_of_two, &[1.5, -2.25]), vec![1.0, -1.0]);
}

#[test]
fn mul_gradient_matches_differences() {
    agrees_with_differences(product_of_two, &[1.5, -2.25]);
    assert_eq!(gradients_of(product_of_two, &[1.5, -2.25]), vec![-2.25, 1.5]);
}

#[test]
fn pow_gradient_matches_differences() {
    agrees_with_differences(cube, &[1.5]);
    agrees_with_differences(cube, &[-0.75]);
    agrees_with_differences(root, &[2.0]);
    assert_eq!(gradients_of(cube, &[2.0]), vec![12.0]);
}

#[test]
fn tanh_gradient_matches_differences() {
    agrees_with_differences(tanh_of, &[0.3]);
    agrees_with_differences(tanh_of, &[-1.7]);
    let y = (0.3f64).tanh();
    assert_eq!(gradients_of(tanh_of, &[0.3]), vec![1.0 - y.powf(2.0)]);
}

#[test]
fn sigmoid_gradient_matches_differences() {
    agrees_with_differences(sigmoid_of, &[0.3]);
    agrees_with_differences(sigmoid_of, &[-2.0]);
    let y = 1.0 / (1.0 + (-0.3f64).exp());
    assert_eq!(value_of(sigmoid_of, &[0.3]), y);
    assert_eq!(gradients_of(sigmoid_of, &[0.3]), vec![y * (1.0 - y)]);
    assert_eq!(value_of(sigmoid_of, &[0.0]), 0.5);
    assert_eq!(gradients_of(sigmoid_of, &[0.0]), vec![0.25]);
}

#[test]
fn relu_gradient_matches_differences() {
    agrees_with_differences(relu_of, &[0.8]);
    agrees_with_differences(relu_of, &[-0.8]);
    // the whole gradient passes where the result is above zero, none of it elsewhere
    assert_eq!(gradients_of(relu_of, &[3.0]), vec![1.0]);
    assert_eq!(gradients_of(relu_of, &[-3.0]), vec![0.0]);
    assert_eq!(gradients_of(relu_of, &[0.0]), vec![0.0]);
    assert_eq!(value_of(relu_of, &[3.0]), 3.0);
    assert_eq!(value_of(relu_of, &[-3.0]), 0.0);
}

#[test]
fn relu_passes_upstream_gradient_unscaled() {
    // d/dx (5 * relu(x)) at x = 3 is 5, whatever the value of relu(x)
    let mut graph: Graph<Real> = Graph::new();
    let x = Value::new(&mut graph, Real(3.0), "x");
    let five = Value::new(&mut graph, Real(5.0), "five");
    let out = x.relu(&mut graph).mul(&mut graph, five);
    out.backward(&mut graph);
    assert_eq!(x.gradient(&graph), Real(5.0));
}

#[test]
fn shared_node_sums_the_partials_of_every_path() {
    // d/da (a*a + a*a*a) = 2a + 3a^2
    let a = 1.5;
    assert_eq!(gradients_of(square_plus_cube, &[a]), vec![2.0 * a + 3.0 * a * a]);
    agrees_with_differences(square_plus_cube, &[a]);
    agrees_with_differences(square_plus_cube, &[-0.4]);
}

#[test]
fn composite_gradient_matches_differences() {
    agrees_with_differences(mixed, &[0.7, 1.3, -0.2]);
    agrees_with_differences(mixed, &[-1.1, 0.4, 0.9]);
}

#[test]
fn non_finite_values_flow_through() {
    // a negative base under a fractional exponent has no real power
    let mut graph: Graph<Real> = Graph::new();
    let x = Value::new(&mut graph, Real(-4.0), "x");
    let r = x.pow(&mut graph, Real(0.5));
    assert!(r.value(&graph).0.is_nan());
    let one = Value::new(&mut graph, Real(1.0), "one");
    let s = r.add(&mut graph, one);
    assert!(s.value(&graph).0.is_nan());
    s.backward(&mut graph);
    assert_eq!(s.gradient(&graph), Real(1.0));
    assert_eq!(r.gradient(&graph), Real(1.0));
    assert!(x.gradient(&graph).0.is_nan());
    let zero = Value::new(&mut graph, Real(0.0), "zero");
    let inf = zero.pow(&mut graph, Real(-1.0));
    assert_eq!(inf.value(&graph), Real(f64::INFINITY));
}

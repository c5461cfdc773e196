use gradnet::layer::Layer;
use gradnet::neuron::{Linearity, Neuron};
use gradnet::scalar::Scalar;
use gradnet::value::{Graph, Value};

#[derive(Clone, Copy, Debug, PartialEq)]
struct Real(f64);

impl Scalar for Real {
    fn from_int(n: i64) -> Self {
        Real(n as f64)
    }

    fn add(&self, rhs: &Self) -> Self {
        Real(self.0 + rhs.0)
    }

    fn sub(&self, rhs: &Self) -> Self {
        Real(self.0 - rhs.0)
    }

    fn mul(&self, rhs: &Self) -> Self {
        Real(self.0 * rhs.0)
    }

    fn div(&self, rhs: &Self) -> Self {
        Real(self.0 / rhs.0)
    }

    fn neg(&self) -> Self {
        Real(-self.0)
    }

    fn exp(&self) -> Self {
        Real(self.0.exp())
    }

    fn powf(&self, exponent: &Self) -> Self {
        Real(self.0.powf(exponent.0))
    }

    fn tanh(&self) -> Self {
        Real(self.0.tanh())
    }

    fn less_than(&self, rhs: &Self) -> bool {
        self.0 < rhs.0
    }

    fn text(&self) -> String {
        format!("{}", self.0)
    }
}

fn reals(values: &[f64]) -> Vec<Real> {
    values.iter().map(|v| Real(*v)).collect()
}

#[test]
fn single_unit_squared_error() {
    let mut graph: Graph<Real> = Graph::new();
    let unit = Neuron::new(&mut graph, Linearity::Linear, 3, &reals(&[1.0, 1.0, 1.0, 0.0]));
    let x = [
        Value::new(&mut graph, Real(2.0), "x1"),
        Value::new(&mut graph, Real(3.0), "x2"),
        Value::new(&mut graph, Real(-1.0), "x3"),
    ];
    let y = Value::new(&mut graph, Real(2.0), "y");
    let out = unit.forward(&mut graph, &x);
    assert_eq!(out.value(&graph), Real(4.0));
    let loss = out.sub(&mut graph, y).pow(&mut graph, Real(2.0));
    assert_eq!(loss.value(&graph), Real(4.0));
    loss.backward(&mut graph);
    assert_eq!(out.gradient(&graph), Real(4.0));
    let weights = unit.weights();
    assert_eq!(weights[0].gradient(&graph), Real(8.0));
    assert_eq!(weights[1].gradient(&graph), Real(12.0));
    assert_eq!(weights[2].gradient(&graph), Real(-4.0));
    let parameters = unit.parameters();
    assert_eq!(parameters[3].gradient(&graph), Real(4.0));
    assert_eq!(loss.label(&graph), "b + w1 * x1 + w2 * x2 + w3 * x3 - y^2");
}

#[test]
fn unit_parameters_are_named_leaves_in_order() {
    let mut graph: Graph<Real> = Graph::new();
    let spare = Value::new(&mut graph, Real(0.0), "spare");
    let init: Vec<Real> = (0..13).map(|k| Real(k as f64 / 8.0)).collect();
    let unit = Neuron::new(&mut graph, Linearity::Tanh, 12, &init);
    assert_eq!(graph.len(), 14);
    let weights = unit.weights().to_vec();
    let parameters = unit.parameters();
    assert_eq!(weights.len(), 12);
    assert_eq!(parameters.len(), 13);
    assert_eq!(&parameters[..12], &weights[..]);
    for (k, p) in parameters.iter().enumerate() {
        assert_eq!(p.index(), spare.index() + 1 + k);
        assert_eq!(p.value(&graph), init[k]);
        assert_eq!(p.gradient(&graph), Real(0.0));
    }
    assert_eq!(weights[0].label(&graph), "w1");
    assert_eq!(weights[8].label(&graph), "w9");
    assert_eq!(weights[9].label(&graph), "w10");
    assert_eq!(weights[11].label(&graph), "w12");
    assert_eq!(parameters[12].label(&graph), "b");
}

#[test]
fn unit_applies_its_nonlinearity() {
    let init = reals(&[0.5, -1.0, 0.25]);
    let sum: f64 = (0.25 + 0.5 * 2.0) + -1.0 * 3.0;
    for (linearity, expected, nodes) in [
        (Linearity::Linear, sum, 4),
        (Linearity::ReLu, 0.0, 5),
        (Linearity::Tanh, sum.tanh(), 5),
        (Linearity::Sigmoid, 1.0 / (1.0 + (-sum).exp()), 5),
    ] {
        let mut graph: Graph<Real> = Graph::new();
        let unit = Neuron::new(&mut graph, linearity, 2, &init);
        let x = [
            Value::new(&mut graph, Real(2.0), "x1"),
            Value::new(&mut graph, Real(3.0), "x2"),
        ];
        let before = graph.len();
        let out = unit.forward(&mut graph, &x);
        assert_eq!(out.value(&graph), Real(expected));
        assert_eq!(graph.len(), before + nodes);
        assert_eq!(out.index(), graph.len() - 1);
    }
}

#[test]
fn unit_without_inputs_is_its_bias() {
    let mut graph: Graph<Real> = Graph::new();
    let plain = Neuron::new(&mut graph, Linearity::Linear, 0, &reals(&[0.75]));
    let squashed = Neuron::new(&mut graph, Linearity::Tanh, 0, &reals(&[0.75]));
    let out = plain.forward(&mut graph, &[]);
    assert_eq!(out, plain.parameters()[0]);
    assert_eq!(graph.len(), 2);
    let out = squashed.forward(&mut graph, &[]);
    assert_eq!(out.value(&graph), Real((0.75f64).tanh()));
    assert_eq!(out.label(&graph), "tanh(b)");
    assert_eq!(graph.len(), 3);
}

#[test]
fn unit_nudge_updates_bias_and_weights() {
    let mut graph: Graph<Real> = Graph::new();
    let unit = Neuron::new(&mut graph, Linearity::Linear, 2, &reals(&[0.5, -1.0, 0.25]));
    let x = [
        Value::new(&mut graph, Real(2.0), "x1"),
        Value::new(&mut graph, Real(3.0), "x2"),
    ];
    let out = unit.forward(&mut graph, &x);
    out.backward(&mut graph);
    unit.nudge(&mut graph, Real(0.5));
    let parameters = unit.parameters();
    assert_eq!(parameters[0].value(&graph), Real(0.5 - 0.5 * 2.0));
    assert_eq!(parameters[1].value(&graph), Real(-1.0 - 0.5 * 3.0));
    assert_eq!(parameters[2].value(&graph), Real(0.25 - 0.5 * 1.0));
    for p in parameters.iter() {
        assert_eq!(p.gradient(&graph), Real(0.0));
    }
    // the inputs are no parameters: they keep value and gradient
    assert_eq!(x[0].value(&graph), Real(2.0));
    assert_eq!(x[0].gradient(&graph), Real(0.5));
    assert_eq!(x[1].gradient(&graph), Real(-1.0));
}

#[test]
fn layer_nudge_updates_every_unit() {
    let mut graph: Graph<Real> = Graph::new();
    let init = reals(&[1.0, 2.0, 3.0, 4.0]);
    let mut layer = Layer::<Neuron>::new(&mut graph, Linearity::Linear, 2, 1, &init);
    let x = [Value::new(&mut graph, Real(10.0), "x")];
    let out = layer.forward(&mut graph, &x).to_vec();
    let total = out[0].add(&mut graph, out[1]);
    assert_eq!(total.value(&graph), Real((2.0 + 1.0 * 10.0) + (4.0 + 3.0 * 10.0)));
    total.backward(&mut graph);
    layer.nudge(&mut graph, Real(0.1));
    let parameters = layer.parameters();
    let expected = [1.0 - 0.1 * 10.0, 2.0 - 0.1 * 1.0, 3.0 - 0.1 * 10.0, 4.0 - 0.1 * 1.0];
    for (k, p) in parameters.iter().enumerate() {
        assert_eq!(p.value(&graph), Real(expected[k]));
        assert_eq!(p.gradient(&graph), Real(0.0));
    }
    let weights: Vec<usize> = layer.weights().iter().map(|w| w.index()).collect();
    assert_eq!(weights, vec![0, 2]);
    assert_eq!(x[0].gradient(&graph), Real(4.0));
}

#[test]
fn layer_without_units_adds_nothing() {
    let mut graph: Graph<Real> = Graph::new();
    let mut layer = Layer::<Neuron>::new(&mut graph, Linearity::Tanh, 0, 3, &[]);
    assert_eq!(graph.len(), 0);
    let x = [
        Value::new(&mut graph, Real(1.0), "x1"),
        Value::new(&mut graph, Real(1.0), "x2"),
        Value::new(&mut graph, Real(1.0), "x3"),
    ];
    assert_eq!(layer.forward(&mut graph, &x).len(), 0);
    assert_eq!(layer.parameters().len(), 0);
    assert_eq!(graph.len(), 3);
}

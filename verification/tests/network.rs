use gradnet::layer::{InputLayer, Layer};
use gradnet::mlp::MultiLayerPerceptron;
use gradnet::neuron::{AsNeuron, InputNeuron, Linearity, Neuron};
use gradnet::scalar::Scalar;
use gradnet::value::{Graph, Value};

#[derive(Clone, Copy, Debug, PartialEq)]
struct Real(f64);

impl Scalar for Real {
    fn from_int(n: i64) -> Self {
        Real(n as f64)
    }

    fn add(&self, rhs: &Self) -> Self {
        Real(self.0 + rhs.0)
    }

    fn sub(&self, rhs: &Self) -> Self {
        Real(self.0 - rhs.0)
    }

    fn mul(&self, rhs: &Self) -> Self {
        Real(self.0 * rhs.0)
    }

    fn div(&self, rhs: &Self) -> Self {
        Real(self.0 / rhs.0)
    }

    fn neg(&self) -> Self {
        Real(-self.0)
    }

    fn exp(&self) -> Self {
        Real(self.0.exp())
    }

    fn powf(&self, exponent: &Self) -> Self {
        Real(self.0.powf(exponent.0))
    }

    fn tanh(&self) -> Self {
        Real(self.0.tanh())
    }

    fn less_than(&self, rhs: &Self) -> bool {
        self.0 < rhs.0
    }

    fn text(&self) -> String {
        format!("{}", self.0)
    }
}

fn reals(values: &[f64]) -> Vec<Real> {
    values.iter().map(|v| Real(*v)).collect()
}

#[test]
fn network_shape_one_three_one() {
    let mut graph: Graph<Real> = Graph::new();
    assert_eq!(MultiLayerPerceptron::<1>::parameter_count(0, 3), Some(10));
    let init = reals(&[0.1, 0.2, 0.3, 0.4, 0.5, 0.6, 0.7, 0.8, 0.9, 1.0]);
    let mut network = MultiLayerPerceptron::<1>::new(&mut graph, &init, 0, 3, Linearity::Tanh);
    assert_eq!(graph.len(), 10);
    assert_eq!(network.weights().len(), 6);
    assert_eq!(network.parameters().len(), 10);
    let x = [Value::new(&mut graph, Real(2.0), "x")];
    let out = network.forward(&mut graph, &x).to_vec();
    assert_eq!(out.len(), 1);
    let parameters = network.parameters();
    for (k, p) in parameters.iter().enumerate() {
        assert_eq!(p.index(), k);
        assert_eq!(p.value(&graph), init[k]);
    }
    let weights: Vec<usize> = network.weights().iter().map(|w| w.index()).collect();
    assert_eq!(weights, vec![0, 2, 4, 6, 7, 8]);
    let h: Vec<f64> = (0..3)
        .map(|k| (init[2 * k].0 * 2.0 + init[2 * k + 1].0).tanh())
        .collect();
    let mut expected = init[9].0;
    for k in 0..3 {
        expected = expected + init[6 + k].0 * h[k];
    }
    assert_eq!(out[0].value(&graph), Real(expected));
}

#[test]
fn parameter_count_formula() {
    assert_eq!(MultiLayerPerceptron::<1>::parameter_count(1, 1), Some(2 + 2 + 2));
    assert_eq!(MultiLayerPerceptron::<3>::parameter_count(2, 4), Some(16 + 40 + 5));
    assert_eq!(MultiLayerPerceptron::<3>::parameter_count(7, 0), Some(1));
    assert_eq!(MultiLayerPerceptron::<{ usize::MAX }>::parameter_count(0, 0), Some(1));
    assert_eq!(MultiLayerPerceptron::<{ usize::MAX }>::parameter_count(0, 1), None);
    assert_eq!(MultiLayerPerceptron::<1>::parameter_count(usize::MAX, 2), None);
    assert_eq!(MultiLayerPerceptron::<1>::parameter_count(0, usize::MAX), None);
}

#[test]
fn hidden_layers_thread_results() {
    let mut graph: Graph<Real> = Graph::new();
    let count = MultiLayerPerceptron::<2>::parameter_count(2, 2).unwrap();
    assert_eq!(count, 6 + 12 + 3);
    let init: Vec<Real> = (0..count).map(|k| Real(0.05 * (k as f64) - 0.4)).collect();
    let mut network = MultiLayerPerceptron::<2>::new(&mut graph, &init, 2, 2, Linearity::Sigmoid);
    let before = graph.len();
    let x = [
        Value::new(&mut graph, Real(0.5), "x1"),
        Value::new(&mut graph, Real(-1.5), "x2"),
    ];
    let out = network.forward(&mut graph, &x).to_vec();
    assert_eq!(out.len(), 1);
    // three layers of two sigmoid units with two inputs each, then one plain unit
    assert_eq!(graph.len(), before + 2 + 3 * 2 * 5 + 4);
    let sigmoid = |v: f64| 1.0 / (1.0 + (-v).exp());
    let w = |k: usize| init[k].0;
    let mut current = vec![0.5, -1.5];
    let mut at = 0;
    for _ in 0..3 {
        let mut next = Vec::new();
        for _ in 0..2 {
            let mut sum = w(at + 2);
            sum = sum + w(at) * current[0];
            sum = sum + w(at + 1) * current[1];
            next.push(sigmoid(sum));
            at += 3;
        }
        current = next;
    }
    let mut sum = w(at + 2);
    sum = sum + w(at) * current[0];
    sum = sum + w(at + 1) * current[1];
    assert_eq!(out[0].value(&graph), Real(sum));
    assert_eq!(out[0].index(), graph.len() - 1);
}

#[test]
fn nudge_moves_every_parameter_and_clears_gradients() {
    let mut graph: Graph<Real> = Graph::new();
    let init = reals(&[0.5, -0.25, 0.75, 0.1, -0.6, 0.3, 0.2]);
    let mut network = MultiLayerPerceptron::<1>::new(&mut graph, &init, 0, 2, Linearity::Tanh);
    let mark = graph.len();
    let x = [Value::new(&mut graph, Real(1.5), "x")];
    let y = Value::new(&mut graph, Real(0.25), "y");
    let out = network.forward(&mut graph, &x)[0];
    let loss = out.sub(&mut graph, y).pow(&mut graph, Real(2.0));
    let first = loss.value(&graph).0;
    loss.backward(&mut graph);
    let parameters = network.parameters();
    let gradients: Vec<f64> = parameters.iter().map(|p| p.gradient(&graph).0).collect();
    assert!(gradients.iter().any(|g| *g != 0.0));
    network.nudge(&mut graph, Real(0.01));
    for (k, p) in parameters.iter().enumerate() {
        assert_eq!(p.gradient(&graph), Real(0.0));
        assert_eq!(p.value(&graph), Real(init[k].0 - 0.01 * gradients[k]));
    }
    assert_eq!(x[0].value(&graph), Real(1.5));
    assert_eq!(y.value(&graph), Real(0.25));
    // a second update without a backward pass changes no value
    network.nudge(&mut graph, Real(0.01));
    for (k, p) in parameters.iter().enumerate() {
        assert_eq!(p.value(&graph), Real(init[k].0 - 0.01 * gradients[k]));
    }
    // the next pass on the same data has a smaller loss
    graph.truncate(mark);
    assert_eq!(graph.len(), mark);
    let x = [Value::new(&mut graph, Real(1.5), "x")];
    let y = Value::new(&mut graph, Real(0.25), "y");
    let out = network.forward(&mut graph, &x)[0];
    let loss = out.sub(&mut graph, y).pow(&mut graph, Real(2.0));
    assert!(loss.value(&graph).0 < first);
}

#[test]
fn layer_applies_each_unit_to_the_same_inputs() {
    let mut graph: Graph<Real> = Graph::new();
    let init = reals(&[1.0, 2.0, 0.5, -1.0, 3.0, -0.5]);
    let mut layer = Layer::<Neuron>::new(&mut graph, Linearity::ReLu, 2, 2, &init);
    assert_eq!(layer.parameters().len(), 6);
    assert_eq!(layer.weights().len(), 4);
    let x = [
        Value::new(&mut graph, Real(2.0), "x1"),
        Value::new(&mut graph, Real(-1.0), "x2"),
    ];
    let out = layer.forward(&mut graph, &x).to_vec();
    assert_eq!(out.len(), 2);
    assert_eq!(out[0].value(&graph), Real(0.5));
    assert_eq!(out[1].value(&graph), Real(0.0));
    assert_eq!(out[0].label(&graph), "ReLu(b + w1 * x1 + w2 * x2)");
    // the buffer is reused: a second pass hands back as many results
    let again = layer.forward(&mut graph, &x).to_vec();
    assert_eq!(again.len(), 2);
    assert_eq!(again[0].value(&graph), Real(0.5));
    assert!(again[0].index() > out[1].index());
}

#[test]
fn input_layer_and_input_neuron_have_fixed_width() {
    let mut graph: Graph<Real> = Graph::new();
    let unit = InputNeuron::<2>::new(&mut graph, Linearity::Linear, &reals(&[2.0, 3.0, 1.0]));
    let mut layer = InputLayer::<2>::new(
        &mut graph,
        Linearity::Linear,
        2,
        &reals(&[1.0, 0.0, 0.0, 0.0, 1.0, 0.0]),
    );
    let x = [
        Value::new(&mut graph, Real(5.0), "x1"),
        Value::new(&mut graph, Real(7.0), "x2"),
    ];
    let single = unit.as_ref().forward(&mut graph, &x);
    assert_eq!(single.value(&graph), Real(1.0 + 10.0 + 21.0));
    assert_eq!(layer.as_ref().parameters().len(), 6);
    let out = layer.as_mut().forward(&mut graph, &x).to_vec();
    assert_eq!(out[0].value(&graph), Real(5.0));
    assert_eq!(out[1].value(&graph), Real(7.0));
}

//! One unit of a network: a weighted sum of its inputs plus a bias, passed
//! through a nonlinearity.
use crate::gradient::{nudged, nudged_all};
use crate::label::{decimal, numbered};
use crate::node::{
    acyclic, built, extended, fresh, laid, lemma_built_chain, lemma_built_is_laid,
    lemma_extended_is_built, placed, planted, run, Derivation, Node,
};
use crate::scalar::{is_int, is_product, is_rectified, is_sigmoid, is_sum, is_tanh, Scalar};
use crate::value::{positions, Graph, Operation, Value};
use vstd::prelude::*;

verus! {

/// What a unit applies to its weighted sum.
#[derive(Clone, Copy, Debug, PartialEq, Eq, Structural)]
pub enum Linearity {
    Linear,
    ReLu,
    Tanh,
    Sigmoid,
}

/// A unit: one weight for each input, and a bias. All are leaves of a graph.
#[derive(Debug)]
pub struct Neuron {
    linearity: Linearity,
    weights: Vec<Value>,
    bias: Value,
}

/// A unit as the contracts see it: its parameters by their positions.
pub ghost struct Unit {
    pub linearity: Linearity,
    pub weights: Seq<int>,
    pub bias: int,
}

impl View for Neuron {
    type V = Unit;

    closed spec fn view(&self) -> Unit {
        Unit { linearity: self.linearity, weights: positions(self.weights@), bias: self.bias@ }
    }
}

impl Unit {
    /// The weights, then the bias.
    pub open spec fn parameters(self) -> Seq<int> {
        self.weights.push(self.bias)
    }

    /// The parameters carry their names in `g`: `w1`, `w2` and so on for the
    /// weights, `b` for the bias.
    pub open spec fn named<S>(self, g: Seq<Node<S>>) -> bool {
        &&& forall|i: int|
            0 <= i < self.weights.len() ==> g[#[trigger] self.weights[i]].label == "w"@ + decimal(
                (i + 1) as nat,
            )
        &&& g[self.bias].label == "b"@
    }

    /// The number of nodes that one forward pass adds.
    pub open spec fn size(self) -> int {
        2 * self.weights.len() + if self.linearity == Linearity::Linear {
            0int
        } else {
            1int
        }
    }

    /// Where the weighted sum stands, in a forward pass that starts at `base`.
    pub open spec fn total(self, base: int) -> int {
        if self.weights.len() == 0 {
            self.bias
        } else {
            base + 2 * self.weights.len() - 1
        }
    }

    /// Where the result stands, in a forward pass that starts at `base`.
    pub open spec fn output(self, base: int) -> int {
        if self.linearity == Linearity::Linear {
            self.total(base)
        } else {
            base + 2 * self.weights.len()
        }
    }

    /// The nodes of a forward pass on the inputs `x` that starts at `base`.
    ///
    /// For each input, in order: the product of its weight with it, then the
    /// sum of what was summed so far, the bias at first, with that product.
    /// Last, the nonlinearity of the whole sum, if there is one.
    pub open spec fn steps<S>(self, x: Seq<int>, base: int) -> Seq<Derivation<S>> {
        Seq::new(
            self.size() as nat,
            |i: int|
                if i == 2 * self.weights.len() {
                    match self.linearity {
                        Linearity::ReLu => Derivation::ReLu(self.total(base)),
                        Linearity::Tanh => Derivation::Tanh(self.total(base)),
                        _ => Derivation::Sigmoid(self.total(base)),
                    }
                } else if i % 2 == 0 {
                    Derivation::Mul(self.weights[i / 2], x[i / 2])
                } else {
                    Derivation::Add(
                        if i == 1 {
                            self.bias
                        } else {
                            base + i - 2
                        },
                        base + i - 1,
                    )
                },
        )
    }
}

/// `v` is the bias plus the products of the first `k` weights with their
/// inputs, summed from the left.
pub open spec fn weighted<S: Scalar>(g: Seq<Node<S>>, unit: Unit, x: Seq<int>, k: int, v: S) -> bool
    decreases k,
{
    if k <= 0 {
        v == g[unit.bias].value
    } else {
        exists|sum: S, product: S|
            weighted(g, unit, x, k - 1, sum) && is_product(
                g[unit.weights[k - 1]].value,
                g[x[k - 1]].value,
                product,
            ) && #[trigger] is_sum(sum, product, v)
    }
}

/// `v` is what the nonlinearity makes of `sum`.
pub open spec fn activated<S: Scalar>(linearity: Linearity, sum: S, v: S) -> bool {
    match linearity {
        Linearity::Linear => v == sum,
        Linearity::ReLu => is_rectified(sum, v),
        Linearity::Tanh => is_tanh(sum, v),
        Linearity::Sigmoid => is_sigmoid(sum, v),
    }
}

/// The node at `out` holds what the unit makes of the inputs `x`: the
/// nonlinearity of the bias plus each weight times its input.
pub open spec fn unit_result<S: Scalar>(g: Seq<Node<S>>, unit: Unit, x: Seq<int>, out: int) -> bool {
    exists|sum: S| #[trigger]
        weighted(g, unit, x, unit.weights.len() as int, sum) && activated(
            unit.linearity,
            sum,
            g[out].value,
        )
}

/// Whether every one of `x` is a node of `g`.
pub open spec fn all_within<S>(x: Seq<Value>, g: Seq<Node<S>>) -> bool {
    forall|i: int| 0 <= i < x.len() ==> (#[trigger] x[i])@ < g.len()
}

/// The parameters of a unit that is in a graph are nodes of it, each its own.
pub proof fn lemma_parameters_apart<S>(unit: Unit, g: Seq<Node<S>>)
    requires
        placed(unit.parameters(), g),
    ensures
        forall|k: int|
            0 <= k < unit.parameters().len() ==> 0 <= #[trigger] unit.parameters()[k] < g.len(),
        forall|k: int| 0 <= k < unit.weights.len() ==> 0 <= #[trigger] unit.weights[k] < g.len(),
        forall|k: int| 0 <= k < unit.weights.len() ==> #[trigger] unit.weights[k] != unit.bias,
        forall|i: int, j: int|
            0 <= i < j < unit.weights.len() ==> #[trigger] unit.weights[i]
                != #[trigger] unit.weights[j],
        0 <= unit.bias < g.len(),
{
    let p = unit.parameters();
    let last = p.len() - 1;
    assert(p[last] == unit.bias);
    assert forall|k: int| 0 <= k < p.len() implies 0 <= #[trigger] p[k] < g.len() by {
        if 0 < k {
            assert(p[0] < p[k]);
        }
        if k < last {
            assert(p[k] < p[last]);
        }
    }
    assert forall|k: int| 0 <= k < unit.weights.len() implies 0 <= #[trigger] unit.weights[k]
        < g.len() && unit.weights[k] != unit.bias by {
        assert(p[k] == unit.weights[k]);
        assert(p[k] < p[last]);
    }
    assert forall|i: int, j: int| 0 <= i < j < unit.weights.len() implies #[trigger] unit.weights[i]
        != #[trigger] unit.weights[j] by {
        assert(p[i] < p[j]);
    }
}

/// One round of the weighted sum: the product for input `i`, then its sum
/// with what was summed so far.
proof fn lemma_steps_round<S>(unit: Unit, x: Seq<int>, base: int, i: int)
    requires
        0 <= i < unit.weights.len(),
    ensures
        unit.steps::<S>(x, base).take(2 * i + 2) == unit.steps::<S>(x, base).take(2 * i)
            + seq![Derivation::Mul(unit.weights[i], x[i])] + seq![
            Derivation::Add(
                if i == 0 {
                    unit.bias
                } else {
                    base + 2 * i - 1
                },
                base + 2 * i,
            ),
        ],
{
    let steps = unit.steps::<S>(x, base);
    let round = steps.take(2 * i) + seq![Derivation::Mul(unit.weights[i], x[i])] + seq![
        Derivation::Add(
            if i == 0 {
                unit.bias
            } else {
                base + 2 * i - 1
            },
            base + 2 * i,
        ),
    ];
    assert(steps[2 * i] == Derivation::<S>::Mul(unit.weights[i], x[i]));
    assert(steps[2 * i + 1] == Derivation::<S>::Add(
        if i == 0 {
            unit.bias
        } else {
            base + 2 * i - 1
        },
        base + 2 * i,
    ));
    assert(steps.take(2 * i + 2) =~= round);
}

/// The last step of a unit that has a nonlinearity.
proof fn lemma_steps_last<S>(unit: Unit, x: Seq<int>, base: int)
    ensures
        unit.linearity == Linearity::Linear ==> unit.steps::<S>(x, base).take(
            2 * unit.weights.len() as int,
        ) == unit.steps::<S>(x, base),
        unit.linearity != Linearity::Linear ==> unit.steps::<S>(x, base) == unit.steps::<S>(
            x,
            base,
        ).take(2 * unit.weights.len() as int) + seq![
            match unit.linearity {
                Linearity::ReLu => Derivation::ReLu(unit.total(base)),
                Linearity::Tanh => Derivation::Tanh(unit.total(base)),
                _ => Derivation::Sigmoid(unit.total(base)),
            },
        ],
{
    let steps = unit.steps::<S>(x, base);
    let n = 2 * unit.weights.len() as int;
    if unit.linearity == Linearity::Linear {
        assert(steps.take(n) =~= steps);
    } else {
        let last = match unit.linearity {
            Linearity::ReLu => Derivation::<S>::ReLu(unit.total(base)),
            Linearity::Tanh => Derivation::Tanh(unit.total(base)),
            _ => Derivation::Sigmoid(unit.total(base)),
        };
        assert(steps[n] == last);
        assert(steps =~= steps.take(n) + seq![last]);
    }
}

/// The two steps of round `i` of a unit's forward pass.
proof fn lemma_steps_at<S>(unit: Unit, x: Seq<int>, base: int, i: int)
    requires
        0 <= i < unit.weights.len(),
    ensures
        2 * i + 1 < unit.steps::<S>(x, base).len(),
        unit.steps::<S>(x, base)[2 * i] == Derivation::<S>::Mul(unit.weights[i], x[i]),
        unit.steps::<S>(x, base)[2 * i + 1] == Derivation::<S>::Add(
            if i == 0 {
                unit.bias
            } else {
                base + 2 * i - 1
            },
            base + 2 * i,
        ),
{
}

/// Where the nodes of a unit's forward pass stand in a graph, round `i`
/// multiplies the weight with its input and adds the product to the sum.
proof fn lemma_round_values<S: Scalar>(
    g: Seq<Node<S>>,
    unit: Unit,
    x: Seq<int>,
    base: int,
    i: int,
)
    requires
        laid(g, unit.steps(x, base), base),
        0 <= i < unit.weights.len(),
    ensures
        is_product(g[unit.weights[i]].value, g[x[i]].value, g[base + 2 * i].value),
        is_sum(
            g[if i == 0 {
                unit.bias
            } else {
                base + 2 * i - 1
            }].value,
            g[base + 2 * i].value,
            g[base + 2 * i + 1].value,
        ),
{
    let steps = unit.steps::<S>(x, base);
    lemma_steps_at::<S>(unit, x, base, i);
    let product = base + 2 * i;
    let sum = base + 2 * i + 1;
    assert(g[product].op == steps[product - base] && fresh(g, product));
    assert(g[sum].op == steps[sum - base] && fresh(g, sum));
}

/// Where the nodes of a unit's forward pass stand in a graph, the sum after
/// `k` rounds is the bias plus the first `k` products.
proof fn lemma_weighted<S: Scalar>(g: Seq<Node<S>>, unit: Unit, x: Seq<int>, base: int, k: int)
    requires
        laid(g, unit.steps(x, base), base),
        0 <= k <= unit.weights.len(),
    ensures
        weighted(
            g,
            unit,
            x,
            k,
            g[if k == 0 {
                unit.bias
            } else {
                base + 2 * k - 1
            }].value,
        ),
    decreases k,
{
    if k > 0 {
        lemma_weighted(g, unit, x, base, k - 1);
        lemma_round_values(g, unit, x, base, k - 1);
        let before = if k == 1 {
            unit.bias
        } else {
            base + 2 * k - 3
        };
        let product = base + 2 * k - 2;
        let sum = base + 2 * k - 1;
        assert(weighted(g, unit, x, k - 1, g[before].value) && is_product(
            g[unit.weights[k - 1]].value,
            g[x[k - 1]].value,
            g[product].value,
        ) && is_sum(g[before].value, g[product].value, g[sum].value));
    }
}

/// Where the nodes of a unit's forward pass stand in a graph, the last of
/// them holds what the unit makes of its inputs: the forward pass computes
/// `activation(bias + w1 * x1 + w2 * x2 + ...)`.
pub proof fn lemma_unit_result<S: Scalar>(g: Seq<Node<S>>, unit: Unit, x: Seq<int>, base: int)
    requires
        laid(g, unit.steps(x, base), base),
    ensures
        unit_result(g, unit, x, unit.output(base)),
{
    let n = unit.weights.len() as int;
    let steps = unit.steps::<S>(x, base);
    let total = unit.total(base);
    lemma_weighted(g, unit, x, base, n);
    assert(weighted(g, unit, x, n, g[total].value));
    if unit.linearity != Linearity::Linear {
        let out = base + 2 * n;
        assert(g[out].op == steps[out - base] && fresh(g, out));
    }
    assert(activated(unit.linearity, g[total].value, g[unit.output(base)].value));
}

/// A round that ends with one more node made by `op`.
proof fn lemma_built_one<S: Scalar>(
    start: Seq<Node<S>>,
    middle: Seq<Node<S>>,
    end: Seq<Node<S>>,
    so_far: Seq<Derivation<S>>,
    op: Derivation<S>,
    made: int,
)
    requires
        acyclic(middle),
        built(start, middle, so_far),
        extended(middle, end, op, made),
    ensures
        built(start, end, so_far + seq![op]),
{
    lemma_extended_is_built(middle, end, op, made);
    lemma_built_chain(start, middle, end, so_far, seq![op]);
}

impl Neuron {
    /// A unit with `weights` inputs. Its parameters are new leaves of
    /// `graph`: the weights first, labelled `w1`, `w2` and so on, then the
    /// bias, labelled `b`. They take their values from `init`, in that order.
    pub fn new<S: Scalar>(
        graph: &mut Graph<S>,
        linearity: Linearity,
        weights: usize,
        init: &[S],
    ) -> (neuron: Neuron)
        requires
            acyclic(old(graph)@),
            init@.len() == weights + 1,
        ensures
            planted(old(graph)@, final(graph)@, init@),
            neuron@ == (Unit {
                linearity,
                weights: run(old(graph)@.len() as int, weights as int),
                bias: old(graph)@.len() + weights,
            }),
            neuron@.named(final(graph)@),
            placed(neuron@.parameters(), final(graph)@),
            acyclic(final(graph)@),
    {
        let ghost g = graph@;
        let ghost base = g.len() as int;
        let mut made: Vec<Value> = Vec::new();
        let mut i: usize = 0;
        while i < weights
            invariant
                i <= weights,
                init@.len() == weights + 1,
                base == g.len(),
                acyclic(graph@),
                planted(g, graph@, init@.take(i as int)),
                made@.len() == i,
                forall|k: int| 0 <= k < i ==> (#[trigger] made@[k])@ == base + k,
                forall|k: int|
                    0 <= k < i ==> (#[trigger] graph@[base + k]).label == "w"@ + decimal(
                        (k + 1) as nat,
                    ),
            decreases weights - i,
        {
            let ghost cur = graph@;
            let label = numbered("w", i + 1);
            let weight = Value::new(graph, init[i], label.as_str());
            made.push(weight);
            proof {
                assert forall|k: int| 0 <= k < i implies (#[trigger] graph@[base + k]).label == "w"@
                    + decimal((k + 1) as nat) by {
                    assert(graph@[base + k] == cur[base + k]);
                }
                assert forall|j: int| g.len() <= j < graph@.len() implies {
                    &&& (#[trigger] graph@[j]).op == Derivation::<S>::Const
                    &&& graph@[j].value == init@.take(i + 1)[j - g.len()]
                    &&& is_int(0, graph@[j].gradient)
                } by {
                    if j < cur.len() {
                        assert(graph@[j] == cur[j]);
                    }
                }
            }
            i = i + 1;
        }
        let ghost cur = graph@;
        let bias = Value::new(graph, init[weights], "b");
        proof {
            assert(init@.take(weights + 1) =~= init@);
            assert forall|k: int| 0 <= k < weights implies (#[trigger] graph@[base + k]).label
                == "w"@ + decimal((k + 1) as nat) by {
                assert(graph@[base + k] == cur[base + k]);
            }
            assert forall|j: int| g.len() <= j < graph@.len() implies {
                &&& (#[trigger] graph@[j]).op == Derivation::<S>::Const
                &&& graph@[j].value == init@[j - g.len()]
                &&& is_int(0, graph@[j].gradient)
            } by {
                if j < cur.len() {
                    assert(graph@[j] == cur[j]);
                }
            }
        }
        let neuron = Neuron { linearity, weights: made, bias };
        proof {
            assert(neuron@.weights =~= run(base, weights as int));
            assert forall|i: int| 0 <= i < neuron@.weights.len() implies graph@[
                #[trigger] neuron@.weights[i]].label == "w"@ + decimal((i + 1) as nat) by {
                assert(graph@[base + i].label == "w"@ + decimal((i + 1) as nat));
            }
        }
        neuron
    }

    /// The forward pass: `bias + w1 * x1 + w2 * x2 + ...`, summed from the
    /// left, then the nonlinearity. Every step is a new node of `graph`.
    pub fn forward<S: Scalar>(&self, graph: &mut Graph<S>, x: &[Value]) -> (out: Value)
        requires
            acyclic(old(graph)@),
            placed(self@.parameters(), old(graph)@),
            x@.len() == self@.weights.len(),
            all_within(x@, old(graph)@),
        ensures
            built(
                old(graph)@,
                final(graph)@,
                self@.steps(positions(x@), old(graph)@.len() as int),
            ),
            out@ == self@.output(old(graph)@.len() as int),
            out@ < final(graph)@.len(),
            unit_result(final(graph)@, self@, positions(x@), out@),
            acyclic(final(graph)@),
    {
        let ghost g = graph@;
        let ghost base = g.len() as int;
        let ghost unit = self@;
        let ghost steps = unit.steps::<S>(positions(x@), base);
        let mut sum = self.bias;
        let mut i: usize = 0;
        proof {
            assert(steps.take(0) =~= Seq::<Derivation<S>>::empty());
        }
        while i < self.weights.len()
            invariant
                unit == self@,
                placed(unit.parameters(), g),
                base == g.len(),
                steps == unit.steps::<S>(positions(x@), base),
                i <= unit.weights.len() == x@.len() == self.weights@.len(),
                all_within(x@, g),
                acyclic(graph@),
                built(g, graph@, steps.take(2 * i)),
                sum@ == if i == 0 {
                    unit.bias
                } else {
                    base + 2 * i - 1
                },
                sum@ < graph@.len(),
            decreases self.weights@.len() - i,
        {
            let ghost cur = graph@;
            proof {
                lemma_parameters_apart(unit, g);
                assert(unit.weights[i as int] == self.weights@[i as int]@);
            }
            let product = self.weights[i].mul(graph, x[i]);
            let ghost mid = graph@;
            let previous = sum;
            sum = previous.add(graph, product);
            proof {
                let first = Operation::<S>::Mul(self.weights@[i as int], x@[i as int])@;
                let second = Operation::<S>::Add(previous, product)@;
                lemma_built_one(g, cur, mid, steps.take(2 * i), first, product@);
                lemma_built_one(g, mid, graph@, steps.take(2 * i) + seq![first], second, sum@);
                lemma_steps_round::<S>(unit, positions(x@), base, i as int);
            }
            i = i + 1;
        }
        let ghost cur = graph@;
        let out = match self.linearity {
            Linearity::Linear => {
                proof {
                    lemma_steps_last::<S>(unit, positions(x@), base);
                }
                sum
            },
            Linearity::ReLu => {
                let out = sum.relu(graph);
                proof {
                    let last = Operation::<S>::ReLu(sum)@;
                    lemma_built_one(g, cur, graph@, steps.take(2 * i), last, out@);
                    lemma_steps_last::<S>(unit, positions(x@), base);
                }
                out
            },
            Linearity::Tanh => {
                let out = sum.tanh(graph);
                proof {
                    let last = Operation::<S>::Tanh(sum)@;
                    lemma_built_one(g, cur, graph@, steps.take(2 * i), last, out@);
                    lemma_steps_last::<S>(unit, positions(x@), base);
                }
                out
            },
            Linearity::Sigmoid => {
                let out = sum.sigmoid(graph);
                proof {
                    let last = Operation::<S>::Sigmoid(sum)@;
                    lemma_built_one(g, cur, graph@, steps.take(2 * i), last, out@);
                    lemma_steps_last::<S>(unit, positions(x@), base);
                }
                out
            },
        };
        proof {
            lemma_built_is_laid(g, graph@, steps);
            lemma_unit_result(graph@, unit, positions(x@), base);
        }
        out
    }

    /// The update step on every parameter: the bias, then each weight.
    pub fn nudge<S: Scalar>(&self, graph: &mut Graph<S>, learning_rate: S)
        requires
            acyclic(old(graph)@),
            placed(self@.parameters(), old(graph)@),
        ensures
            nudged_all(old(graph)@, final(graph)@, self@.parameters(), learning_rate),
            acyclic(final(graph)@),
    {
        let ghost g = graph@;
        let ghost unit = self@;
        let ghost p = unit.parameters();
        proof {
            lemma_parameters_apart(unit, g);
        }
        self.bias.nudge(graph, learning_rate);
        let mut i: usize = 0;
        while i < self.weights.len()
            invariant
                unit == self@,
                p == unit.parameters(),
                placed(unit.parameters(), g),
                i <= self.weights@.len(),
                acyclic(graph@),
                graph@.len() == g.len(),
                nudged(g[unit.bias], graph@[unit.bias], learning_rate),
                forall|k: int|
                    0 <= k < i ==> nudged(
                        g[#[trigger] unit.weights[k]],
                        graph@[unit.weights[k]],
                        learning_rate,
                    ),
                forall|j: int|
                    0 <= j < g.len() && j != unit.bias && (forall|k: int|
                        0 <= k < i ==> #[trigger] unit.weights[k] != j) ==> #[trigger] graph@[j]
                        == g[j],
            decreases self.weights@.len() - i,
        {
            let ghost cur = graph@;
            proof {
                lemma_parameters_apart(unit, g);
                assert(unit.weights[i as int] == self.weights@[i as int]@);
                assert(cur[unit.weights[i as int]] == g[unit.weights[i as int]]);
            }
            self.weights[i].nudge(graph, learning_rate);
            proof {
                assert forall|k: int| 0 <= k < i + 1 implies nudged(
                    g[#[trigger] unit.weights[k]],
                    graph@[unit.weights[k]],
                    learning_rate,
                ) by {
                    if k < i {
                        assert(graph@[unit.weights[k]] == cur[unit.weights[k]]);
                    }
                }
                assert(graph@[unit.bias] == cur[unit.bias]);
                assert forall|j: int|
                    0 <= j < g.len() && j != unit.bias && (forall|k: int|
                        0 <= k < i + 1 ==> #[trigger] unit.weights[k] != j) implies #[trigger] graph@[j]
                    == g[j] by {
                    assert(unit.weights[i as int] != j);
                    assert(graph@[j] == cur[j]);
                }
            }
            i = i + 1;
        }
        proof {
            lemma_parameters_apart(unit, g);
            assert forall|k: int| 0 <= k < p.len() implies nudged(
                g[#[trigger] p[k]],
                graph@[p[k]],
                learning_rate,
            ) by {
                if k < unit.weights.len() {
                    assert(p[k] == unit.weights[k]);
                }
            }
            assert forall|j: int| 0 <= j < g.len() && !p.contains(j) implies #[trigger] graph@[j]
                == g[j] by {
                assert(p[p.len() - 1] == unit.bias);
                assert forall|k: int| 0 <= k < unit.weights.len() implies #[trigger] unit.weights[k]
                    != j by {
                    assert(p[k] == unit.weights[k]);
                }
            }
        }
    }

    /// The weights, in the order of the inputs.
    pub fn weights(&self) -> (weights: &[Value])
        ensures
            positions(weights@) == self@.weights,
    {
        self.weights.as_slice()
    }

    /// The weights, then the bias.
    pub fn parameters(&self) -> (parameters: Vec<Value>)
        ensures
            positions(parameters@) == self@.parameters(),
    {
        let mut parameters: Vec<Value> = Vec::new();
        let mut i: usize = 0;
        while i < self.weights.len()
            invariant
                i <= self.weights@.len(),
                parameters@ == self.weights@.take(i as int),
            decreases self.weights@.len() - i,
        {
            parameters.push(self.weights[i]);
            proof {
                assert(parameters@ =~= self.weights@.take(i + 1));
            }
            i = i + 1;
        }
        parameters.push(self.bias);
        proof {
            assert(self.weights@.take(self.weights@.len() as int) =~= self.weights@);
            assert(positions(parameters@) =~= self@.parameters());
        }
        parameters
    }
}


/// Anything that holds a unit.
pub trait AsNeuron {
    /// The unit that it holds.
    spec fn unit(&self) -> Unit;

    /// The unit that it holds.
    fn as_ref(&self) -> (neuron: &Neuron)
        ensures
            neuron@ == self.unit(),
    ;
}

impl AsNeuron for Neuron {
    open spec fn unit(&self) -> Unit {
        self@
    }

    fn as_ref(&self) -> (neuron: &Neuron) {
        self
    }
}

/// A unit with `I` inputs.
#[derive(Debug)]
pub struct InputNeuron<const I: usize> {
    inner: Neuron,
}

impl<const I: usize> View for InputNeuron<I> {
    type V = Unit;

    closed spec fn view(&self) -> Unit {
        self.inner@
    }
}

impl<const I: usize> InputNeuron<I> {
    /// A unit with `I` inputs, made as `Neuron::new` makes one.
    pub fn new<S: Scalar>(graph: &mut Graph<S>, linearity: Linearity, init: &[S]) -> (neuron: Self)
        requires
            acyclic(old(graph)@),
            init@.len() == I + 1,
        ensures
            planted(old(graph)@, final(graph)@, init@),
            neuron@ == (Unit {
                linearity,
                weights: run(old(graph)@.len() as int, I as int),
                bias: old(graph)@.len() + I,
            }),
            neuron@.named(final(graph)@),
            placed(neuron@.parameters(), final(graph)@),
            acyclic(final(graph)@),
    {
        InputNeuron { inner: Neuron::new(graph, linearity, I, init) }
    }
}

impl<const I: usize> AsNeuron for InputNeuron<I> {
    open spec fn unit(&self) -> Unit {
        self@
    }

    fn as_ref(&self) -> (neuron: &Neuron) {
        &self.inner
    }
}

} // verus!

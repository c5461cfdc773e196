//! A network: a stack of layers, each reading the results of the one before.
use crate::gradient::{lemma_nudged_chain, nudged_all};
use crate::layer::{
    all_apply, append, layer_named, layer_outputs, layer_parameters, layer_results, layer_size,
    layer_steps, layer_weights, lemma_layer_counts, lemma_layer_named_grows,
    lemma_layer_results, lemma_layer_steps_len, uniform, InputLayer, Layer,
};
use crate::neuron::{all_within, Linearity, Neuron, Unit};
use crate::node::{
    acyclic, built, laid, lemma_built_chain, lemma_built_is_laid, lemma_laid_split,
    lemma_placed_in_range, lemma_placed_split, lemma_planted_chain, placed, planted, run,
    Derivation, Node,
};
use crate::scalar::Scalar;
use crate::value::{positions, Graph, Value};
use vstd::prelude::*;
use vstd::slice::{slice_subrange, slice_to_vec};

verus! {

/// A network for `I` inputs: a first layer that reads them, any number of
/// hidden layers, and a last layer of one unit without a nonlinearity.
#[derive(Debug)]
pub struct MultiLayerPerceptron<const I: usize> {
    input_layer: InputLayer<I>,
    hidden_layers: Vec<Layer<Neuron>>,
    output_layer: Layer<Neuron>,
}

impl<const I: usize> View for MultiLayerPerceptron<I> {
    type V = Seq<Seq<Unit>>;

    closed spec fn view(&self) -> Seq<Seq<Unit>> {
        seq![self.input_layer@] + Seq::new(
            self.hidden_layers@.len(),
            |i: int| self.hidden_layers@[i]@,
        ) + seq![self.output_layer@]
    }
}

/// The number of nodes that one forward pass of the layers adds.
pub open spec fn network_size(layers: Seq<Seq<Unit>>) -> int
    decreases layers.len(),
{
    if layers.len() == 0 {
        0
    } else {
        network_size(layers.drop_last()) + layer_size(layers.last())
    }
}

/// Where the results of the last layer stand, in a forward pass on the
/// inputs `x` that starts at `base`. Without a layer they are the inputs.
pub open spec fn network_outputs(layers: Seq<Seq<Unit>>, x: Seq<int>, base: int) -> Seq<int> {
    if layers.len() == 0 {
        x
    } else {
        layer_outputs(layers.last(), base + network_size(layers.drop_last()))
    }
}

/// The nodes of a forward pass of the layers on the inputs `x` that starts
/// at `base`: those of the first layer on `x`, then those of each further
/// layer on the results of the layer before it.
pub open spec fn network_steps<S>(layers: Seq<Seq<Unit>>, x: Seq<int>, base: int) -> Seq<
    Derivation<S>,
>
    decreases layers.len(),
{
    if layers.len() == 0 {
        Seq::empty()
    } else {
        network_steps(layers.drop_last(), x, base) + layer_steps(
            layers.last(),
            network_outputs(layers.drop_last(), x, base),
            base + network_size(layers.drop_last()),
        )
    }
}

/// Every layer's results hold what its units make of the results of the
/// layer before it, and the first layer's what its units make of the inputs
/// `x`, in a forward pass that starts at `base`.
pub open spec fn network_results<S: Scalar>(
    g: Seq<Node<S>>,
    layers: Seq<Seq<Unit>>,
    x: Seq<int>,
    base: int,
) -> bool {
    forall|l: int|
        0 <= l < layers.len() ==> layer_results(
            g,
            #[trigger] layers[l],
            network_outputs(layers.take(l), x, base),
            network_outputs(layers.take(l + 1), x, base),
        )
}

/// The weights of the first layer, then those of the second, and so on.
pub open spec fn network_weights(layers: Seq<Seq<Unit>>) -> Seq<int>
    decreases layers.len(),
{
    if layers.len() == 0 {
        Seq::empty()
    } else {
        network_weights(layers.drop_last()) + layer_weights(layers.last())
    }
}

/// The parameters of the first layer, then those of the second, and so on.
pub open spec fn network_parameters(layers: Seq<Seq<Unit>>) -> Seq<int>
    decreases layers.len(),
{
    if layers.len() == 0 {
        Seq::empty()
    } else {
        network_parameters(layers.drop_last()) + layer_parameters(layers.last())
    }
}

/// The first layer takes `inputs` inputs, and every further layer as many as
/// the layer before it has units.
pub open spec fn chained(layers: Seq<Seq<Unit>>, inputs: int) -> bool {
    forall|l: int|
        0 <= l < layers.len() ==> uniform(
            #[trigger] layers[l],
            if l == 0 {
                inputs
            } else {
                layers[l - 1].len() as int
            },
        )
}

/// The parameters of every layer carry their names in `g`.
pub open spec fn network_named<S>(layers: Seq<Seq<Unit>>, g: Seq<Node<S>>) -> bool {
    forall|l: int| 0 <= l < layers.len() ==> layer_named(#[trigger] layers[l], g)
}

/// The shape of a network: `hidden + 2` layers; all but the last have
/// `neurons` units that apply `linearity`; the last has one unit and applies
/// none.
pub open spec fn shaped(
    layers: Seq<Seq<Unit>>,
    hidden: int,
    neurons: int,
    linearity: Linearity,
) -> bool {
    &&& layers.len() == hidden + 2
    &&& forall|l: int|
        0 <= l <= hidden ==> (#[trigger] layers[l]).len() == neurons && all_apply(
            layers[l],
            linearity,
        )
    &&& layers[hidden + 1].len() == 1
    &&& all_apply(layers[hidden + 1], Linearity::Linear)
}

/// The number of parameters of a network of that shape.
pub open spec fn parameter_total(inputs: int, hidden: int, neurons: int) -> int {
    neurons * (inputs + 1) + hidden * (neurons * (neurons + 1)) + (neurons + 1)
}

/// The number of weights of a network of that shape.
pub open spec fn weight_total(inputs: int, hidden: int, neurons: int) -> int {
    neurons * inputs + hidden * (neurons * neurons) + neurons
}

/// The layers up to the one at `i`, and that one, make the layers up to the
/// next.
pub proof fn lemma_network_unfold<S>(layers: Seq<Seq<Unit>>, x: Seq<int>, base: int, i: int)
    requires
        0 <= i < layers.len(),
    ensures
        network_size(layers.take(i + 1)) == network_size(layers.take(i)) + layer_size(layers[i]),
        network_steps::<S>(layers.take(i + 1), x, base) == network_steps::<S>(
            layers.take(i),
            x,
            base,
        ) + layer_steps(
            layers[i],
            network_outputs(layers.take(i), x, base),
            base + network_size(layers.take(i)),
        ),
        network_outputs(layers.take(i + 1), x, base) == layer_outputs(
            layers[i],
            base + network_size(layers.take(i)),
        ),
        network_weights(layers.take(i + 1)) == network_weights(layers.take(i)) + layer_weights(
            layers[i],
        ),
        network_parameters(layers.take(i + 1)) == network_parameters(layers.take(i))
            + layer_parameters(layers[i]),
{
    assert(layers.take(i + 1).drop_last() =~= layers.take(i));
    assert(layers.take(i + 1).last() == layers[i]);
}

/// A forward pass of the layers adds as many nodes as it has steps.
pub proof fn lemma_network_steps_len<S>(layers: Seq<Seq<Unit>>, x: Seq<int>, base: int)
    ensures
        network_steps::<S>(layers, x, base).len() == network_size(layers),
        network_size(layers) >= 0,
    decreases layers.len(),
{
    if layers.len() > 0 {
        lemma_network_steps_len::<S>(layers.drop_last(), x, base);
        lemma_layer_steps_len::<S>(
            layers.last(),
            network_outputs(layers.drop_last(), x, base),
            base + network_size(layers.drop_last()),
        );
    }
}

/// Where the nodes of a network's forward pass stand in a graph, every
/// layer's results hold what its units make of the results of the layer
/// before it: the forward pass threads the inputs through the layers in
/// order.
pub proof fn lemma_network_results<S: Scalar>(
    g: Seq<Node<S>>,
    layers: Seq<Seq<Unit>>,
    x: Seq<int>,
    base: int,
)
    requires
        laid(g, network_steps(layers, x, base), base),
    ensures
        network_results(g, layers, x, base),
    decreases layers.len(),
{
    if layers.len() > 0 {
        let rest = layers.drop_last();
        let last = layers.last();
        let inputs = network_outputs(rest, x, base);
        let offset = base + network_size(rest);
        lemma_network_steps_len::<S>(rest, x, base);
        lemma_laid_split(g, network_steps(rest, x, base), layer_steps(last, inputs, offset), base);
        lemma_network_results(g, rest, x, base);
        lemma_layer_results(g, last, inputs, offset);
        assert forall|l: int| 0 <= l < layers.len() implies layer_results(
            g,
            #[trigger] layers[l],
            network_outputs(layers.take(l), x, base),
            network_outputs(layers.take(l + 1), x, base),
        ) by {
            if l < rest.len() {
                assert(rest[l] == layers[l]);
                assert(rest.take(l) =~= layers.take(l));
                assert(rest.take(l + 1) =~= layers.take(l + 1));
            } else {
                assert(layers.take(l) =~= rest);
                assert(layers.take(l + 1) =~= layers);
            }
        }
    }
}

/// The parameters of the layers up to the one at `i` are the first of the
/// parameters of all.
pub proof fn lemma_network_parameters_prefix(layers: Seq<Seq<Unit>>, i: int)
    requires
        0 <= i <= layers.len(),
    ensures
        network_parameters(layers.take(i)).len() <= network_parameters(layers).len(),
        network_parameters(layers.take(i)) == network_parameters(layers).take(
            network_parameters(layers.take(i)).len() as int,
        ),
    decreases layers.len() - i,
{
    if i == layers.len() {
        assert(layers.take(i) =~= layers);
        assert(network_parameters(layers).take(network_parameters(layers).len() as int)
            =~= network_parameters(layers));
    } else {
        lemma_network_parameters_prefix(layers, i + 1);
        lemma_network_unfold::<int>(layers, Seq::empty(), 0, i);
        let longer = network_parameters(layers.take(i + 1));
        let shorter = network_parameters(layers.take(i));
        assert(shorter =~= longer.take(shorter.len() as int));
        assert(shorter =~= network_parameters(layers).take(shorter.len() as int));
    }
}

/// In a network that is placed in a graph, every layer is, and shares no
/// parameter with the layers before it.
pub proof fn lemma_network_layer_placed<S>(layers: Seq<Seq<Unit>>, g: Seq<Node<S>>, i: int)
    requires
        placed(network_parameters(layers), g),
        0 <= i < layers.len(),
    ensures
        placed(network_parameters(layers.take(i)), g),
        placed(network_parameters(layers.take(i + 1)), g),
        placed(layer_parameters(layers[i]), g),
        forall|a: int, b: int|
            0 <= a < network_parameters(layers.take(i)).len() && 0 <= b < layer_parameters(
                layers[i],
            ).len() ==> #[trigger] network_parameters(layers.take(i))[a]
                != #[trigger] layer_parameters(layers[i])[b],
{
    let all = network_parameters(layers);
    let upto = network_parameters(layers.take(i + 1));
    lemma_network_parameters_prefix(layers, i + 1);
    lemma_network_unfold::<int>(layers, Seq::empty(), 0, i);
    assert(all =~= upto + all.skip(upto.len() as int));
    lemma_placed_split(upto, all.skip(upto.len() as int), g);
    lemma_placed_split(network_parameters(layers.take(i)), layer_parameters(layers[i]), g);
}

/// A forward pass is under way: the first `k` layers have had their turn.
/// `g` is the graph before the pass and `cur` the graph now; `current` holds
/// the results of the layer that came last, or the inputs before the first.
#[verifier::opaque]
spec fn midway<S: Scalar>(
    g: Seq<Node<S>>,
    cur: Seq<Node<S>>,
    layers: Seq<Seq<Unit>>,
    xs: Seq<int>,
    k: int,
    current: Seq<Value>,
) -> bool {
    &&& acyclic(cur)
    &&& built(g, cur, network_steps(layers.take(k), xs, g.len() as int))
    &&& cur.len() == g.len() + network_size(layers.take(k))
    &&& positions(current) == network_outputs(layers.take(k), xs, g.len() as int)
    &&& all_within(current, cur)
    &&& k > 0 ==> current.len() == layers[k - 1].len()
}

/// Before the first layer, the inputs stand for the results.
proof fn lemma_midway_start<S: Scalar>(g: Seq<Node<S>>, layers: Seq<Seq<Unit>>, x: Seq<Value>)
    requires
        acyclic(g),
        all_within(x, g),
    ensures
        midway(g, g, layers, positions(x), 0, x),
{
    reveal(midway);
    assert(layers.take(0) =~= Seq::<Seq<Unit>>::empty());
    assert(network_steps::<S>(layers.take(0), positions(x), g.len() as int) =~= Seq::<
        Derivation<S>,
    >::empty());
}

/// What the next layer's forward pass needs holds midway.
proof fn lemma_midway_ready<S: Scalar>(
    g: Seq<Node<S>>,
    cur: Seq<Node<S>>,
    layers: Seq<Seq<Unit>>,
    inputs: int,
    xs: Seq<int>,
    k: int,
    current: Seq<Value>,
)
    requires
        0 <= k < layers.len(),
        placed(network_parameters(layers), g),
        chained(layers, inputs),
        midway(g, cur, layers, xs, k, current),
        k == 0 ==> current.len() == inputs,
    ensures
        acyclic(cur),
        placed(layer_parameters(layers[k]), cur),
        uniform(layers[k], current.len() as int),
        all_within(current, cur),
{
    reveal(midway);
    lemma_network_layer_placed(layers, g, k);
}

/// One more layer has had its turn.
proof fn lemma_midway_advance<S: Scalar>(
    g: Seq<Node<S>>,
    cur: Seq<Node<S>>,
    next: Seq<Node<S>>,
    layers: Seq<Seq<Unit>>,
    xs: Seq<int>,
    k: int,
    current: Seq<Value>,
    out: Seq<Value>,
)
    requires
        0 <= k < layers.len(),
        midway(g, cur, layers, xs, k, current),
        built(cur, next, layer_steps(layers[k], positions(current), cur.len() as int)),
        next.len() == cur.len() + layer_size(layers[k]),
        positions(out) == layer_outputs(layers[k], cur.len() as int),
        out.len() == layers[k].len(),
        all_within(out, next),
        acyclic(next),
    ensures
        midway(g, next, layers, xs, k + 1, out),
{
    reveal(midway);
    lemma_network_unfold::<S>(layers, xs, g.len() as int, k);
    lemma_built_chain(
        g,
        cur,
        next,
        network_steps(layers.take(k), xs, g.len() as int),
        layer_steps(layers[k], positions(current), cur.len() as int),
    );
}

/// After the last layer, the pass is done.
proof fn lemma_midway_end<S: Scalar>(
    g: Seq<Node<S>>,
    cur: Seq<Node<S>>,
    layers: Seq<Seq<Unit>>,
    xs: Seq<int>,
    out: Seq<Value>,
)
    requires
        midway(g, cur, layers, xs, layers.len() as int, out),
    ensures
        acyclic(cur),
        built(g, cur, network_steps(layers, xs, g.len() as int)),
        cur.len() == g.len() + network_size(layers),
        positions(out) == network_outputs(layers, xs, g.len() as int),
        layers.len() > 0 ==> out.len() == layers.last().len(),
        all_within(out, cur),
{
    reveal(midway);
    assert(layers.take(layers.len() as int) =~= layers);
}

impl<const I: usize> MultiLayerPerceptron<I> {
    /// The first layer's turn in a forward pass.
    fn enter<S: Scalar>(&mut self, graph: &mut Graph<S>, x: &[Value; I]) -> (current: Vec<Value>)
        requires
            acyclic(old(graph)@),
            placed(network_parameters(old(self)@), old(graph)@),
            chained(old(self)@, I as int),
            all_within(x@, old(graph)@),
        ensures
            final(self)@ == old(self)@,
            midway(old(graph)@, final(graph)@, old(self)@, positions(x@), 1, current@),
    {
        let ghost g = graph@;
        let ghost layers = self@;
        let ghost xs = positions(x@);
        proof {
            assert(layers[0] == self.input_layer@);
            lemma_midway_start(g, layers, x@);
            lemma_midway_ready(g, g, layers, I as int, xs, 0, x@);
        }
        let first = self.input_layer.as_mut().forward(graph, x.as_slice());
        let current: Vec<Value> = slice_to_vec(first);
        proof {
            lemma_midway_advance(g, g, graph@, layers, xs, 0, x@, current@);
            assert(self@ =~= layers);
        }
        current
    }

    /// The hidden layers' turns in a forward pass, in order.
    fn cross<S: Scalar>(
        &mut self,
        graph: &mut Graph<S>,
        first: Vec<Value>,
        Ghost(g): Ghost<Seq<Node<S>>>,
        Ghost(xs): Ghost<Seq<int>>,
    ) -> (current: Vec<Value>)
        requires
            placed(network_parameters(old(self)@), g),
            chained(old(self)@, I as int),
            midway(g, old(graph)@, old(self)@, xs, 1, first@),
        ensures
            final(self)@ == old(self)@,
            midway(g, final(graph)@, old(self)@, xs, old(self)@.len() - 1, current@),
    {
        let ghost layers = self@;
        let ghost count = self.hidden_layers@.len() as int;
        let mut current = first;
        let mut i: usize = 0;
        while i < self.hidden_layers.len()
            invariant
                layers == self@,
                count == self.hidden_layers@.len(),
                layers.len() == count + 2,
                i <= count,
                placed(network_parameters(layers), g),
                chained(layers, I as int),
                midway(g, graph@, layers, xs, i + 1, current@),
            decreases count - i,
        {
            let ghost cur = graph@;
            let ghost before = current@;
            proof {
                assert(layers[i + 1] == self.hidden_layers@[i as int]@);
                lemma_midway_ready(g, cur, layers, I as int, xs, i + 1, before);
            }
            let out = self.hidden_layers[i].forward(graph, current.as_slice());
            let next = slice_to_vec(out);
            proof {
                lemma_midway_advance(g, cur, graph@, layers, xs, i + 1, before, next@);
                assert(self@ =~= layers);
            }
            current = next;
            i = i + 1;
        }
        current
    }

    /// The last layer's turn in a forward pass.
    fn leave<S: Scalar>(
        &mut self,
        graph: &mut Graph<S>,
        current: Vec<Value>,
        Ghost(g): Ghost<Seq<Node<S>>>,
        Ghost(xs): Ghost<Seq<int>>,
    ) -> (out: &[Value])
        requires
            placed(network_parameters(old(self)@), g),
            chained(old(self)@, I as int),
            midway(g, old(graph)@, old(self)@, xs, old(self)@.len() - 1, current@),
        ensures
            final(self)@ == old(self)@,
            midway(g, final(graph)@, old(self)@, xs, old(self)@.len() as int, out@),
    {
        let ghost layers = self@;
        let ghost count = self.hidden_layers@.len() as int;
        let ghost cur = graph@;
        proof {
            assert(layers[count + 1] == self.output_layer@);
            lemma_midway_ready(g, cur, layers, I as int, xs, count + 1, current@);
        }
        let out = self.output_layer.forward(graph, current.as_slice());
        proof {
            lemma_midway_advance(g, cur, graph@, layers, xs, count + 1, current@, out@);
        }
        out
    }

    /// The forward pass: the first layer's on `x`, then each further layer's
    /// on the results of the layer before it. Hands back the results of the
    /// last layer.
    pub fn forward<S: Scalar>(&mut self, graph: &mut Graph<S>, x: &[Value; I]) -> (out: &[Value])
        requires
            acyclic(old(graph)@),
            placed(network_parameters(old(self)@), old(graph)@),
            chained(old(self)@, I as int),
            all_within(x@, old(graph)@),
        ensures
            final(self)@ == old(self)@,
            built(
                old(graph)@,
                final(graph)@,
                network_steps(old(self)@, positions(x@), old(graph)@.len() as int),
            ),
            final(graph)@.len() == old(graph)@.len() + network_size(old(self)@),
            positions(out@) == network_outputs(
                old(self)@,
                positions(x@),
                old(graph)@.len() as int,
            ),
            out@.len() == old(self)@.last().len(),
            network_results(
                final(graph)@,
                old(self)@,
                positions(x@),
                old(graph)@.len() as int,
            ),
            all_within(out@, final(graph)@),
            acyclic(final(graph)@),
    {
        let ghost g = graph@;
        let ghost layers = self@;
        let ghost xs = positions(x@);
        let first = self.enter(graph, x);
        let last = self.cross(graph, first, Ghost(g), Ghost(xs));
        let out = self.leave(graph, last, Ghost(g), Ghost(xs));
        proof {
            lemma_midway_end(g, graph@, layers, xs, out@);
            lemma_built_is_laid(g, graph@, network_steps(layers, xs, g.len() as int));
            lemma_network_results(graph@, layers, xs, g.len() as int);
        }
        out
    }
}

/// One more layer has had its update step.
proof fn lemma_nudge_advance<S: Scalar>(
    g: Seq<Node<S>>,
    cur: Seq<Node<S>>,
    next: Seq<Node<S>>,
    layers: Seq<Seq<Unit>>,
    k: int,
    learning_rate: S,
)
    requires
        0 <= k < layers.len(),
        placed(network_parameters(layers), g),
        nudged_all(g, cur, network_parameters(layers.take(k)), learning_rate),
        nudged_all(cur, next, layer_parameters(layers[k]), learning_rate),
    ensures
        nudged_all(g, next, network_parameters(layers.take(k + 1)), learning_rate),
{
    lemma_network_layer_placed(layers, g, k);
    lemma_network_unfold::<int>(layers, Seq::empty(), 0, k);
    lemma_placed_in_range(network_parameters(layers.take(k)), g);
    lemma_placed_in_range(layer_parameters(layers[k]), g);
    lemma_nudged_chain(
        g,
        cur,
        next,
        network_parameters(layers.take(k)),
        layer_parameters(layers[k]),
        learning_rate,
    );
}

/// What the next layer's update step needs.
proof fn lemma_nudge_ready<S: Scalar>(
    g: Seq<Node<S>>,
    cur: Seq<Node<S>>,
    layers: Seq<Seq<Unit>>,
    k: int,
)
    requires
        0 <= k < layers.len(),
        placed(network_parameters(layers), g),
        cur.len() == g.len(),
    ensures
        placed(layer_parameters(layers[k]), cur),
{
    lemma_network_layer_placed(layers, g, k);
}

impl<const I: usize> MultiLayerPerceptron<I> {
    /// The update step on every parameter of every layer.
    pub fn nudge<S: Scalar>(&self, graph: &mut Graph<S>, learning_rate: S)
        requires
            acyclic(old(graph)@),
            placed(network_parameters(self@), old(graph)@),
        ensures
            nudged_all(old(graph)@, final(graph)@, network_parameters(self@), learning_rate),
            acyclic(final(graph)@),
    {
        let ghost g = graph@;
        let ghost layers = self@;
        let ghost count = self.hidden_layers@.len() as int;
        proof {
            assert(layers[0] == self.input_layer@);
            assert(layers.take(0) =~= Seq::<Seq<Unit>>::empty());
            lemma_nudge_ready(g, g, layers, 0);
        }
        self.input_layer.as_ref().nudge(graph, learning_rate);
        proof {
            lemma_nudge_advance(g, g, graph@, layers, 0, learning_rate);
        }
        let mut i: usize = 0;
        while i < self.hidden_layers.len()
            invariant
                layers == self@,
                count == self.hidden_layers@.len(),
                layers.len() == count + 2,
                i <= count,
                placed(network_parameters(layers), g),
                acyclic(graph@),
                graph@.len() == g.len(),
                nudged_all(g, graph@, network_parameters(layers.take(i + 1)), learning_rate),
            decreases count - i,
        {
            let ghost cur = graph@;
            proof {
                assert(layers[i + 1] == self.hidden_layers@[i as int]@);
                lemma_nudge_ready(g, cur, layers, i + 1);
            }
            self.hidden_layers[i].nudge(graph, learning_rate);
            proof {
                lemma_nudge_advance(g, cur, graph@, layers, i + 1, learning_rate);
            }
            i = i + 1;
        }
        let ghost cur = graph@;
        proof {
            assert(layers[count + 1] == self.output_layer@);
            lemma_nudge_ready(g, cur, layers, count + 1);
        }
        self.output_layer.nudge(graph, learning_rate);
        proof {
            lemma_nudge_advance(g, cur, graph@, layers, count + 1, learning_rate);
            assert(layers.take(count + 2) =~= layers);
        }
    }

    /// The weights of every layer, layer by layer. The biases are left out.
    pub fn weights(&self) -> (weights: Vec<Value>)
        ensures
            positions(weights@) == network_weights(self@),
    {
        let ghost layers = self@;
        let ghost count = self.hidden_layers@.len() as int;
        let mut weights = self.input_layer.as_ref().weights();
        proof {
            assert(layers[0] == self.input_layer@);
            assert(layers.take(0) =~= Seq::<Seq<Unit>>::empty());
            lemma_network_unfold::<int>(layers, Seq::empty(), 0, 0);
            assert(positions(weights@) =~= network_weights(layers.take(1)));
        }
        let mut i: usize = 0;
        while i < self.hidden_layers.len()
            invariant
                layers == self@,
                count == self.hidden_layers@.len(),
                layers.len() == count + 2,
                i <= count,
                positions(weights@) == network_weights(layers.take(i + 1)),
            decreases count - i,
        {
            let ghost before = weights@;
            let more = self.hidden_layers[i].weights();
            append(&mut weights, more.as_slice());
            proof {
                assert(layers[i + 1] == self.hidden_layers@[i as int]@);
                lemma_network_unfold::<int>(layers, Seq::empty(), 0, i + 1);
                assert(positions(weights@) =~= positions(before) + positions(more@));
            }
            i = i + 1;
        }
        let ghost before = weights@;
        let more = self.output_layer.weights();
        append(&mut weights, more.as_slice());
        proof {
            assert(layers[count + 1] == self.output_layer@);
            lemma_network_unfold::<int>(layers, Seq::empty(), 0, count + 1);
            assert(positions(weights@) =~= positions(before) + positions(more@));
            assert(layers.take(count + 2) =~= layers);
        }
        weights
    }

    /// The parameters of every layer, layer by layer: within a layer unit by
    /// unit, within a unit the weights and then the bias.
    pub fn parameters(&self) -> (parameters: Vec<Value>)
        ensures
            positions(parameters@) == network_parameters(self@),
    {
        let ghost layers = self@;
        let ghost count = self.hidden_layers@.len() as int;
        let mut parameters = self.input_layer.as_ref().parameters();
        proof {
            assert(layers[0] == self.input_layer@);
            assert(layers.take(0) =~= Seq::<Seq<Unit>>::empty());
            lemma_network_unfold::<int>(layers, Seq::empty(), 0, 0);
            assert(positions(parameters@) =~= network_parameters(layers.take(1)));
        }
        let mut i: usize = 0;
        while i < self.hidden_layers.len()
            invariant
                layers == self@,
                count == self.hidden_layers@.len(),
                layers.len() == count + 2,
                i <= count,
                positions(parameters@) == network_parameters(layers.take(i + 1)),
            decreases count - i,
        {
            let ghost before = parameters@;
            let more = self.hidden_layers[i].parameters();
            append(&mut parameters, more.as_slice());
            proof {
                assert(layers[i + 1] == self.hidden_layers@[i as int]@);
                lemma_network_unfold::<int>(layers, Seq::empty(), 0, i + 1);
                assert(positions(parameters@) =~= positions(before) + positions(more@));
            }
            i = i + 1;
        }
        let ghost before = parameters@;
        let more = self.output_layer.parameters();
        append(&mut parameters, more.as_slice());
        proof {
            assert(layers[count + 1] == self.output_layer@);
            lemma_network_unfold::<int>(layers, Seq::empty(), 0, count + 1);
            assert(positions(parameters@) =~= positions(before) + positions(more@));
            assert(layers.take(count + 2) =~= layers);
        }
        parameters
    }
}

/// What one more layer, made from the values of `init` between `lo` and
/// `hi`, adds to a network under construction.
proof fn lemma_network_push<S: Scalar>(
    g: Seq<Node<S>>,
    cur: Seq<Node<S>>,
    next: Seq<Node<S>>,
    layers: Seq<Seq<Unit>>,
    layer: Seq<Unit>,
    init: Seq<S>,
    lo: int,
    hi: int,
)
    requires
        0 <= lo <= hi <= init.len(),
        planted(g, cur, init.take(lo)),
        planted(cur, next, init.subrange(lo, hi)),
        layer_parameters(layer) == run(cur.len() as int, hi - lo),
        layer_named(layer, next),
        placed(layer_parameters(layer), next),
        network_parameters(layers) == run(g.len() as int, lo),
        network_named(layers, cur),
        forall|l: int|
            0 <= l < layers.len() ==> placed(layer_parameters(#[trigger] layers[l]), cur),
    ensures
        planted(g, next, init.take(hi)),
        network_parameters(layers.push(layer)) == run(g.len() as int, hi),
        network_named(layers.push(layer), next),
        forall|l: int|
            0 <= l < layers.len() + 1 ==> placed(
                layer_parameters(#[trigger] layers.push(layer)[l]),
                next,
            ),
        placed(network_parameters(layers.push(layer)), next),
{
    let more = layers.push(layer);
    lemma_planted_chain(g, cur, next, init.take(lo), init.subrange(lo, hi));
    assert(init.take(lo) + init.subrange(lo, hi) =~= init.take(hi));
    assert(more.drop_last() =~= layers);
    assert(more.last() == layer);
    assert(network_parameters(more) =~= run(g.len() as int, hi));
    assert forall|l: int| 0 <= l < more.len() implies placed(
        layer_parameters(#[trigger] more[l]),
        next,
    ) && layer_named(more[l], next) by {
        if l < layers.len() {
            assert(more[l] == layers[l]);
            lemma_layer_named_grows(layers[l], cur, next);
        }
    }
}

/// The sizes of the three parts of a network's parameters.
proof fn lemma_parameter_total(inputs: int, hidden: int, neurons: int)
    requires
        0 <= inputs,
        0 <= hidden,
        0 <= neurons,
    ensures
        0 <= neurons * (inputs + 1) <= parameter_total(inputs, hidden, neurons),
        0 <= hidden * (neurons * (neurons + 1)),
        0 <= neurons * (neurons + 1),
        neurons >= 1 ==> inputs + 1 <= neurons * (inputs + 1),
        neurons == 0 ==> neurons * (inputs + 1) == 0,
        hidden >= 1 ==> neurons * (neurons + 1) <= hidden * (neurons * (neurons + 1)),
        hidden == 0 ==> hidden * (neurons * (neurons + 1)) == 0,
        neurons + 1 <= parameter_total(inputs, hidden, neurons),
        neurons * (inputs + 1) + hidden * (neurons * (neurons + 1)) <= parameter_total(
            inputs,
            hidden,
            neurons,
        ),
{
    assert(0 <= neurons * (inputs + 1)) by (nonlinear_arith)
        requires
            0 <= inputs,
            0 <= neurons,
    ;
    assert(0 <= neurons * (neurons + 1)) by (nonlinear_arith)
        requires
            0 <= neurons,
    ;
    assert(0 <= hidden * (neurons * (neurons + 1))) by (nonlinear_arith)
        requires
            0 <= hidden,
            0 <= neurons * (neurons + 1),
    ;
    assert(neurons >= 1 ==> inputs + 1 <= neurons * (inputs + 1)) by (nonlinear_arith)
        requires
            0 <= inputs,
    ;
    assert(neurons == 0 ==> neurons * (inputs + 1) == 0) by (nonlinear_arith);
    assert(hidden == 0 ==> hidden * (neurons * (neurons + 1)) == 0) by (nonlinear_arith);
    assert(hidden >= 1 ==> neurons * (neurons + 1) <= hidden * (neurons * (neurons + 1)))
        by (nonlinear_arith)
        requires
            0 <= neurons * (neurons + 1),
    ;
}

impl<const I: usize> MultiLayerPerceptron<I> {
    /// The number of parameters of a network for `I` inputs with
    /// `hidden_layers` hidden layers and `neurons` units in each layer but
    /// the last, or nothing where that number is beyond `usize`.
    pub fn parameter_count(hidden_layers: usize, neurons: usize) -> (count: Option<usize>)
        ensures
            count == if parameter_total(I as int, hidden_layers as int, neurons as int)
                <= usize::MAX {
                Some(parameter_total(I as int, hidden_layers as int, neurons as int) as usize)
            } else {
                None
            },
    {
        proof {
            lemma_parameter_total(I as int, hidden_layers as int, neurons as int);
        }
        let tail: usize = match neurons.checked_add(1) {
            Some(v) => v,
            None => {
                return None;
            },
        };
        let head: usize = if neurons == 0 {
            0
        } else {
            match I.checked_add(1) {
                None => {
                    return None;
                },
                Some(width) => match neurons.checked_mul(width) {
                    None => {
                        return None;
                    },
                    Some(v) => v,
                },
            }
        };
        let middle: usize = if hidden_layers == 0 {
            0
        } else {
            match neurons.checked_mul(tail) {
                None => {
                    return None;
                },
                Some(square) => match hidden_layers.checked_mul(square) {
                    None => {
                        return None;
                    },
                    Some(v) => v,
                },
            }
        };
        match head.checked_add(middle) {
            None => None,
            Some(v) => v.checked_add(tail),
        }
    }

    /// A network for `I` inputs: a first layer of `neurons` units,
    /// `hidden_layers` more layers of `neurons` units that read `neurons`
    /// results each, all applying `linearity`, and a last layer of one unit
    /// that applies none. Its parameters are new leaves of `graph`, in the
    /// order of `parameters`, and take their values from `init` in that order.
    pub fn new<S: Scalar>(
        graph: &mut Graph<S>,
        init: &[S],
        hidden_layers: usize,
        neurons: usize,
        linearity: Linearity,
    ) -> (network: Self)
        requires
            acyclic(old(graph)@),
            init@.len() == parameter_total(I as int, hidden_layers as int, neurons as int),
        ensures
            planted(old(graph)@, final(graph)@, init@),
            shaped(network@, hidden_layers as int, neurons as int, linearity),
            chained(network@, I as int),
            network_parameters(network@) == run(old(graph)@.len() as int, init@.len() as int),
            network_named(network@, final(graph)@),
            placed(network_parameters(network@), final(graph)@),
            acyclic(final(graph)@),
    {
        let ghost g = graph@;
        let ghost mut layers: Seq<Seq<Unit>> = Seq::empty();
        let total: usize = init.len();
        proof {
            lemma_parameter_total(I as int, hidden_layers as int, neurons as int);
            assert(init@.take(0) =~= Seq::<S>::empty());
            assert(network_parameters(layers) =~= run(g.len() as int, 0));
        }
        let head: usize = if neurons == 0 {
            0
        } else {
            neurons * (I + 1)
        };
        let block: usize = if hidden_layers == 0 {
            0
        } else {
            neurons * (neurons + 1)
        };
        let input_layer = InputLayer::<I>::new(
            graph,
            linearity,
            neurons,
            slice_subrange(init, 0, head),
        );
        proof {
            lemma_network_push(g, g, graph@, layers, input_layer@, init@, 0, head as int);
            layers = layers.push(input_layer@);
        }
        let mut hidden: Vec<Layer<Neuron>> = Vec::new();
        let mut k: usize = 0;
        let mut lo: usize = head;
        while k < hidden_layers
            invariant
                k <= hidden_layers,
                total == init@.len(),
                init@.len() == parameter_total(I as int, hidden_layers as int, neurons as int),
                head == neurons * (I + 1),
                hidden_layers > 0 ==> block == neurons * (neurons + 1),
                lo == head + k * (neurons * (neurons + 1)),
                lo <= head + hidden_layers * (neurons * (neurons + 1)),
                acyclic(graph@),
                planted(g, graph@, init@.take(lo as int)),
                hidden@.len() == k,
                layers.len() == k + 1,
                layers[0] == input_layer@,
                forall|j: int| 0 <= j < k ==> (#[trigger] hidden@[j])@ == layers[j + 1],
                forall|l: int|
                    0 <= l < layers.len() ==> (#[trigger] layers[l]).len() == neurons && all_apply(
                        layers[l],
                        linearity,
                    ),
                forall|l: int|
                    1 <= l < layers.len() ==> uniform(#[trigger] layers[l], neurons as int),
                uniform(layers[0], I as int),
                network_parameters(layers) == run(g.len() as int, lo as int),
                network_named(layers, graph@),
                forall|l: int|
                    0 <= l < layers.len() ==> placed(
                        layer_parameters(#[trigger] layers[l]),
                        graph@,
                    ),
            decreases hidden_layers - k,
        {
            let ghost cur = graph@;
            proof {
                assert((k + 1) * (neurons * (neurons + 1)) == k * (neurons * (neurons + 1)) + neurons
                    * (neurons + 1) && (k + 1) * (neurons * (neurons + 1)) <= hidden_layers * (
                neurons * (neurons + 1))) by (nonlinear_arith)
                    requires
                        k < hidden_layers,
                        0 <= neurons * (neurons + 1),
                ;
            }
            let hi: usize = lo + block;
            let layer = Layer::<Neuron>::new(
                graph,
                linearity,
                neurons,
                neurons,
                slice_subrange(init, lo, hi),
            );
            proof {
                lemma_network_push(g, cur, graph@, layers, layer@, init@, lo as int, hi as int);
                layers = layers.push(layer@);
            }
            hidden.push(layer);
            k = k + 1;
            lo = hi;
        }
        let ghost cur = graph@;
        proof {
            assert(1 * (neurons + 1) == neurons + 1) by (nonlinear_arith);
        }
        let output_layer = Layer::<Neuron>::new(
            graph,
            Linearity::Linear,
            1,
            neurons,
            slice_subrange(init, lo, total),
        );
        proof {
            lemma_network_push(
                g,
                cur,
                graph@,
                layers,
                output_layer@,
                init@,
                lo as int,
                total as int,
            );
            layers = layers.push(output_layer@);
            assert(init@.take(total as int) =~= init@);
        }
        let network = MultiLayerPerceptron { input_layer, hidden_layers: hidden, output_layer };
        proof {
            assert(network@ =~= layers);
        }
        network
    }
}

/// The layers of a network up to the hidden layer `k` hold `neurons * inputs`
/// weights in the first layer and `neurons * neurons` in each hidden one, and
/// one parameter more for each unit.
proof fn lemma_network_counts_upto(
    layers: Seq<Seq<Unit>>,
    inputs: int,
    hidden: int,
    neurons: int,
    linearity: Linearity,
    k: int,
)
    requires
        shaped(layers, hidden, neurons, linearity),
        chained(layers, inputs),
        0 <= k <= hidden,
    ensures
        network_weights(layers.take(k + 1)).len() == neurons * inputs + k * (neurons * neurons),
        network_parameters(layers.take(k + 1)).len() == neurons * (inputs + 1) + k * (neurons * (
        neurons + 1)),
    decreases k,
{
    lemma_network_unfold::<int>(layers, Seq::empty(), 0, k);
    if k == 0 {
        assert(layers.take(0) =~= Seq::<Seq<Unit>>::empty());
        assert(uniform(layers[0], inputs));
        lemma_layer_counts(layers[0], inputs);
        assert(k * (neurons * neurons) == 0 && k * (neurons * (neurons + 1)) == 0)
            by (nonlinear_arith)
            requires
                k == 0,
        ;
    } else {
        lemma_network_counts_upto(layers, inputs, hidden, neurons, linearity, k - 1);
        assert(uniform(layers[k], layers[k - 1].len() as int));
        lemma_layer_counts(layers[k], neurons);
        assert(k * (neurons * neurons) == (k - 1) * (neurons * neurons) + neurons * neurons && k
            * (neurons * (neurons + 1)) == (k - 1) * (neurons * (neurons + 1)) + neurons * (neurons
            + 1)) by (nonlinear_arith);
    }
}

/// The number of weights and of parameters follows from the shape: a network
/// for `inputs` inputs with `hidden` hidden layers and `neurons` units in each
/// layer but the last has `neurons * inputs + hidden * neurons * neurons +
/// neurons` weights, and one parameter more for each of its units.
pub proof fn lemma_network_counts(
    layers: Seq<Seq<Unit>>,
    inputs: int,
    hidden: int,
    neurons: int,
    linearity: Linearity,
)
    requires
        0 <= hidden,
        shaped(layers, hidden, neurons, linearity),
        chained(layers, inputs),
    ensures
        network_weights(layers).len() == weight_total(inputs, hidden, neurons),
        network_parameters(layers).len() == parameter_total(inputs, hidden, neurons),
{
    lemma_network_counts_upto(layers, inputs, hidden, neurons, linearity, hidden);
    lemma_network_unfold::<int>(layers, Seq::empty(), 0, hidden + 1);
    assert(layers.take(hidden + 2) =~= layers);
    assert(uniform(layers[hidden + 1], layers[hidden].len() as int));
    lemma_layer_counts(layers[hidden + 1], neurons);
    assert(1 * neurons == neurons && 1 * (neurons + 1) == neurons + 1) by (nonlinear_arith);
}

} // verus!

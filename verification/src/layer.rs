//! A layer: units that all read the same inputs, one output for each.
use crate::gradient::{lemma_nudged_chain, nudged_all};
use crate::neuron::{
    all_within, lemma_unit_result, unit_result, AsNeuron, InputNeuron, Linearity, Neuron, Unit,
};
use crate::node::{
    acyclic, built, laid, lemma_built_chain, lemma_built_is_laid, lemma_laid_split,
    lemma_placed_in_range, lemma_placed_split, lemma_planted_chain, placed, planted, run,
    Derivation, Node,
};
use crate::scalar::Scalar;
use crate::value::{positions, Graph, Value};
use vstd::prelude::*;
use vstd::slice::slice_subrange;

verus! {

/// The units of a layer, in order, with the buffer in which it keeps its
/// latest outputs.
#[derive(Debug)]
pub struct Layer<N> where N: AsNeuron {
    neurons: Vec<N>,
    // kept between passes so that a pass need not allocate
    result: Vec<Value>,
}

impl<N: AsNeuron> View for Layer<N> {
    type V = Seq<Unit>;

    closed spec fn view(&self) -> Seq<Unit> {
        Seq::new(self.neurons@.len(), |i: int| self.neurons@[i].unit())
    }
}

/// The number of nodes that one forward pass of the units adds.
pub open spec fn layer_size(units: Seq<Unit>) -> int
    decreases units.len(),
{
    if units.len() == 0 {
        0
    } else {
        layer_size(units.drop_last()) + units.last().size()
    }
}

/// The nodes of a forward pass of the units on the inputs `x` that starts at
/// `base`: those of the first unit, then those of the second, and so on.
pub open spec fn layer_steps<S>(units: Seq<Unit>, x: Seq<int>, base: int) -> Seq<Derivation<S>>
    decreases units.len(),
{
    if units.len() == 0 {
        Seq::empty()
    } else {
        layer_steps(units.drop_last(), x, base) + units.last().steps(
            x,
            base + layer_size(units.drop_last()),
        )
    }
}

/// Where the results stand, one for each unit, in a forward pass that starts
/// at `base`.
pub open spec fn layer_outputs(units: Seq<Unit>, base: int) -> Seq<int> {
    Seq::new(units.len(), |i: int| units[i].output(base + layer_size(units.take(i))))
}

/// Each of the nodes at `outs` holds what its unit makes of the inputs `x`.
pub open spec fn layer_results<S: Scalar>(
    g: Seq<Node<S>>,
    units: Seq<Unit>,
    x: Seq<int>,
    outs: Seq<int>,
) -> bool {
    &&& outs.len() == units.len()
    &&& forall|i: int| 0 <= i < units.len() ==> unit_result(g, #[trigger] units[i], x, outs[i])
}

/// The weights of the first unit, then those of the second, and so on.
pub open spec fn layer_weights(units: Seq<Unit>) -> Seq<int>
    decreases units.len(),
{
    if units.len() == 0 {
        Seq::empty()
    } else {
        layer_weights(units.drop_last()) + units.last().weights
    }
}

/// The parameters of the first unit, then those of the second, and so on.
pub open spec fn layer_parameters(units: Seq<Unit>) -> Seq<int>
    decreases units.len(),
{
    if units.len() == 0 {
        Seq::empty()
    } else {
        layer_parameters(units.drop_last()) + units.last().parameters()
    }
}

/// Every unit takes `width` inputs.
pub open spec fn uniform(units: Seq<Unit>, width: int) -> bool {
    forall|i: int| 0 <= i < units.len() ==> (#[trigger] units[i]).weights.len() == width
}

/// Every unit applies `linearity`.
pub open spec fn all_apply(units: Seq<Unit>, linearity: Linearity) -> bool {
    forall|i: int| 0 <= i < units.len() ==> (#[trigger] units[i]).linearity == linearity
}

/// The parameters of every unit carry their names in `g`.
pub open spec fn layer_named<S>(units: Seq<Unit>, g: Seq<Node<S>>) -> bool {
    forall|i: int| 0 <= i < units.len() ==> (#[trigger] units[i]).named(g)
}

/// The units up to the one at `i`, and that one, make the units up to the next.
pub proof fn lemma_layer_unfold<S>(units: Seq<Unit>, x: Seq<int>, base: int, i: int)
    requires
        0 <= i < units.len(),
    ensures
        layer_size(units.take(i + 1)) == layer_size(units.take(i)) + units[i].size(),
        layer_steps::<S>(units.take(i + 1), x, base) == layer_steps::<S>(units.take(i), x, base)
            + units[i].steps(x, base + layer_size(units.take(i))),
        layer_weights(units.take(i + 1)) == layer_weights(units.take(i)) + units[i].weights,
        layer_parameters(units.take(i + 1)) == layer_parameters(units.take(i))
            + units[i].parameters(),
{
    assert(units.take(i + 1).drop_last() =~= units.take(i));
    assert(units.take(i + 1).last() == units[i]);
}

/// The parameters of the units up to the one at `i` are the first of the
/// parameters of all.
pub proof fn lemma_layer_parameters_prefix(units: Seq<Unit>, i: int)
    requires
        0 <= i <= units.len(),
    ensures
        layer_parameters(units.take(i)).len() <= layer_parameters(units).len(),
        layer_parameters(units.take(i)) == layer_parameters(units).take(
            layer_parameters(units.take(i)).len() as int,
        ),
    decreases units.len() - i,
{
    if i == units.len() {
        assert(units.take(i) =~= units);
        assert(layer_parameters(units).take(layer_parameters(units).len() as int)
            =~= layer_parameters(units));
    } else {
        lemma_layer_parameters_prefix(units, i + 1);
        lemma_layer_unfold::<int>(units, Seq::empty(), 0, i);
        let longer = layer_parameters(units.take(i + 1));
        let shorter = layer_parameters(units.take(i));
        assert(shorter =~= longer.take(shorter.len() as int));
        assert(shorter =~= layer_parameters(units).take(shorter.len() as int));
    }
}

/// A forward pass of the units adds as many nodes as it has steps.
pub proof fn lemma_layer_steps_len<S>(units: Seq<Unit>, x: Seq<int>, base: int)
    ensures
        layer_steps::<S>(units, x, base).len() == layer_size(units),
        layer_size(units) >= 0,
    decreases units.len(),
{
    if units.len() > 0 {
        lemma_layer_steps_len::<S>(units.drop_last(), x, base);
    }
}

/// Where the nodes of a layer's forward pass stand in a graph, each unit's
/// result holds what that unit makes of the inputs: the forward pass applies
/// every unit to the same inputs and keeps the order of the units.
pub proof fn lemma_layer_results<S: Scalar>(
    g: Seq<Node<S>>,
    units: Seq<Unit>,
    x: Seq<int>,
    base: int,
)
    requires
        laid(g, layer_steps(units, x, base), base),
    ensures
        layer_results(g, units, x, layer_outputs(units, base)),
    decreases units.len(),
{
    if units.len() > 0 {
        let rest = units.drop_last();
        let last = units.last();
        let offset = base + layer_size(rest);
        lemma_layer_steps_len::<S>(rest, x, base);
        lemma_laid_split(g, layer_steps(rest, x, base), last.steps(x, offset), base);
        lemma_layer_results(g, rest, x, base);
        lemma_unit_result(g, last, x, offset);
        let outs = layer_outputs(units, base);
        assert forall|i: int| 0 <= i < units.len() implies unit_result(
            g,
            #[trigger] units[i],
            x,
            outs[i],
        ) by {
            if i < rest.len() {
                assert(rest[i] == units[i]);
                assert(rest.take(i) =~= units.take(i));
                assert(layer_outputs(rest, base)[i] == outs[i]);
            } else {
                assert(units.take(i) =~= rest);
            }
        }
    }
}

/// A layer of units with `width` inputs each has `width` weights for each
/// unit, and one parameter more for each unit.
pub proof fn lemma_layer_counts(units: Seq<Unit>, width: int)
    requires
        uniform(units, width),
    ensures
        layer_weights(units).len() == units.len() * width,
        layer_parameters(units).len() == units.len() * (width + 1),
    decreases units.len(),
{
    if units.len() > 0 {
        let rest = units.drop_last();
        assert forall|i: int| 0 <= i < rest.len() implies (#[trigger] rest[i]).weights.len()
            == width by {
            assert(rest[i] == units[i]);
        }
        lemma_layer_counts(rest, width);
        assert(units.last() == units[units.len() - 1]);
        assert(units.len() * width == rest.len() * width + width && units.len() * (width + 1)
            == rest.len() * (width + 1) + (width + 1)) by (nonlinear_arith)
            requires
                units.len() == rest.len() + 1,
        ;
    } else {
        assert(units.len() * width == 0 && units.len() * (width + 1) == 0) by (nonlinear_arith)
            requires
                units.len() == 0,
        ;
    }
}

/// In a layer that is placed in a graph, every unit is, and shares no
/// parameter with the units before it.
pub proof fn lemma_layer_unit_placed<S>(units: Seq<Unit>, g: Seq<Node<S>>, i: int)
    requires
        placed(layer_parameters(units), g),
        0 <= i < units.len(),
    ensures
        placed(layer_parameters(units.take(i)), g),
        placed(layer_parameters(units.take(i + 1)), g),
        placed(units[i].parameters(), g),
        forall|a: int, b: int|
            0 <= a < layer_parameters(units.take(i)).len() && 0 <= b < units[i].parameters().len()
                ==> #[trigger] layer_parameters(units.take(i))[a]
                != #[trigger] units[i].parameters()[b],
{
    let all = layer_parameters(units);
    let upto = layer_parameters(units.take(i + 1));
    lemma_layer_parameters_prefix(units, i + 1);
    lemma_layer_unfold::<int>(units, Seq::empty(), 0, i);
    assert(all =~= upto + all.skip(upto.len() as int));
    lemma_placed_split(upto, all.skip(upto.len() as int), g);
    lemma_placed_split(layer_parameters(units.take(i)), units[i].parameters(), g);
}

/// Appends `more` to `list`.
pub(crate) fn append(list: &mut Vec<Value>, more: &[Value])
    ensures
        final(list)@ == old(list)@ + more@,
{
    let ghost before = list@;
    let mut k: usize = 0;
    while k < more.len()
        invariant
            k <= more@.len(),
            list@ == before + more@.take(k as int),
        decreases more@.len() - k,
    {
        list.push(more[k]);
        proof {
            assert(list@ =~= before + more@.take(k + 1));
        }
        k = k + 1;
    }
    proof {
        assert(more@.take(more@.len() as int) =~= more@);
    }
}

impl<N: AsNeuron> Layer<N> {
    /// The forward pass: every unit's, in order, all on the same inputs.
    /// Hands back one result for each unit.
    pub fn forward<S: Scalar>(&mut self, graph: &mut Graph<S>, x: &[Value]) -> (out: &[Value])
        requires
            acyclic(old(graph)@),
            placed(layer_parameters(old(self)@), old(graph)@),
            uniform(old(self)@, x@.len() as int),
            all_within(x@, old(graph)@),
        ensures
            final(self)@ == old(self)@,
            built(
                old(graph)@,
                final(graph)@,
                layer_steps(old(self)@, positions(x@), old(graph)@.len() as int),
            ),
            final(graph)@.len() == old(graph)@.len() + layer_size(old(self)@),
            positions(out@) == layer_outputs(old(self)@, old(graph)@.len() as int),
            out@.len() == old(self)@.len(),
            layer_results(final(graph)@, old(self)@, positions(x@), positions(out@)),
            all_within(out@, final(graph)@),
            acyclic(final(graph)@),
    {
        let ghost g = graph@;
        let ghost base = g.len() as int;
        let ghost units = self@;
        let ghost xs = positions(x@);
        self.result.clear();
        let mut i: usize = 0;
        proof {
            assert(units.take(0) =~= Seq::<Unit>::empty());
            assert(layer_steps::<S>(units.take(0), xs, base) =~= Seq::<Derivation<S>>::empty());
        }
        while i < self.neurons.len()
            invariant
                units == self@,
                units.len() == self.neurons@.len(),
                self.neurons == old(self).neurons,
                base == g.len(),
                xs == positions(x@),
                i <= units.len(),
                placed(layer_parameters(units), g),
                uniform(units, x@.len() as int),
                all_within(x@, g),
                acyclic(graph@),
                built(g, graph@, layer_steps(units.take(i as int), xs, base)),
                graph@.len() == base + layer_size(units.take(i as int)),
                self.result@.len() == i,
                all_within(self.result@, graph@),
                forall|k: int|
                    0 <= k < i ==> (#[trigger] self.result@[k])@ == units[k].output(
                        base + layer_size(units.take(k)),
                    ),
            decreases units.len() - i,
        {
            let ghost cur = graph@;
            proof {
                lemma_layer_unit_placed(units, g, i as int);
                assert(self.neurons@[i as int].unit() == units[i as int]);
            }
            let out = self.neurons[i].as_ref().forward(graph, x);
            self.result.push(out);
            proof {
                lemma_layer_unfold::<S>(units, xs, base, i as int);
                lemma_built_chain(
                    g,
                    cur,
                    graph@,
                    layer_steps(units.take(i as int), xs, base),
                    units[i as int].steps(xs, cur.len() as int),
                );
            }
            i = i + 1;
        }
        proof {
            assert(units.take(units.len() as int) =~= units);
            assert(positions(self.result@) =~= layer_outputs(units, base));
            lemma_built_is_laid(g, graph@, layer_steps(units, xs, base));
            lemma_layer_results(graph@, units, xs, base);
        }
        self.result.as_slice()
    }

    /// The update step on every parameter of every unit.
    pub fn nudge<S: Scalar>(&self, graph: &mut Graph<S>, learning_rate: S)
        requires
            acyclic(old(graph)@),
            placed(layer_parameters(self@), old(graph)@),
        ensures
            nudged_all(old(graph)@, final(graph)@, layer_parameters(self@), learning_rate),
            acyclic(final(graph)@),
    {
        let ghost g = graph@;
        let ghost units = self@;
        let mut i: usize = 0;
        proof {
            assert(units.take(0) =~= Seq::<Unit>::empty());
        }
        while i < self.neurons.len()
            invariant
                units == self@,
                units.len() == self.neurons@.len(),
                i <= units.len(),
                placed(layer_parameters(units), g),
                acyclic(graph@),
                graph@.len() == g.len(),
                nudged_all(g, graph@, layer_parameters(units.take(i as int)), learning_rate),
            decreases units.len() - i,
        {
            let ghost cur = graph@;
            proof {
                lemma_layer_unit_placed(units, g, i as int);
                assert(self.neurons@[i as int].unit() == units[i as int]);
            }
            self.neurons[i].as_ref().nudge(graph, learning_rate);
            proof {
                lemma_layer_unfold::<int>(units, Seq::empty(), 0, i as int);
                lemma_placed_in_range(layer_parameters(units.take(i as int)), g);
                lemma_placed_in_range(units[i as int].parameters(), g);
                lemma_nudged_chain(
                    g,
                    cur,
                    graph@,
                    layer_parameters(units.take(i as int)),
                    units[i as int].parameters(),
                    learning_rate,
                );
            }
            i = i + 1;
        }
        proof {
            assert(units.take(units.len() as int) =~= units);
        }
    }

    /// The weights of every unit, unit by unit.
    pub fn weights(&self) -> (weights: Vec<Value>)
        ensures
            positions(weights@) == layer_weights(self@),
    {
        let ghost units = self@;
        let mut weights: Vec<Value> = Vec::new();
        let mut i: usize = 0;
        proof {
            assert(units.take(0) =~= Seq::<Unit>::empty());
            assert(positions(weights@) =~= layer_weights(units.take(0)));
        }
        while i < self.neurons.len()
            invariant
                units == self@,
                units.len() == self.neurons@.len(),
                i <= units.len(),
                positions(weights@) == layer_weights(units.take(i as int)),
            decreases units.len() - i,
        {
            let ghost before = weights@;
            let unit = self.neurons[i].as_ref().weights();
            append(&mut weights, unit);
            proof {
                assert(self.neurons@[i as int].unit() == units[i as int]);
                lemma_layer_unfold::<int>(units, Seq::empty(), 0, i as int);
                assert(positions(weights@) =~= positions(before) + positions(unit@));
            }
            i = i + 1;
        }
        proof {
            assert(units.take(units.len() as int) =~= units);
        }
        weights
    }

    /// The parameters of every unit, unit by unit.
    pub fn parameters(&self) -> (parameters: Vec<Value>)
        ensures
            positions(parameters@) == layer_parameters(self@),
    {
        let ghost units = self@;
        let mut parameters: Vec<Value> = Vec::new();
        let mut i: usize = 0;
        proof {
            assert(units.take(0) =~= Seq::<Unit>::empty());
            assert(positions(parameters@) =~= layer_parameters(units.take(0)));
        }
        while i < self.neurons.len()
            invariant
                units == self@,
                units.len() == self.neurons@.len(),
                i <= units.len(),
                positions(parameters@) == layer_parameters(units.take(i as int)),
            decreases units.len() - i,
        {
            let ghost before = parameters@;
            let unit = self.neurons[i].as_ref().parameters();
            append(&mut parameters, unit.as_slice());
            proof {
                assert(self.neurons@[i as int].unit() == units[i as int]);
                lemma_layer_unfold::<int>(units, Seq::empty(), 0, i as int);
                assert(positions(parameters@) =~= positions(before) + positions(unit@));
            }
            i = i + 1;
        }
        proof {
            assert(units.take(units.len() as int) =~= units);
        }
        parameters
    }
}


/// The parameters of a layer that is placed in a graph keep their names
/// while the graph grows.
pub proof fn lemma_layer_named_grows<S>(
    units: Seq<Unit>,
    before: Seq<Node<S>>,
    after: Seq<Node<S>>,
)
    requires
        placed(layer_parameters(units), before),
        layer_named(units, before),
        before.len() <= after.len(),
        forall|i: int| 0 <= i < before.len() ==> #[trigger] after[i] == before[i],
    ensures
        layer_named(units, after),
        placed(layer_parameters(units), after),
{
    assert forall|j: int| 0 <= j < units.len() implies (#[trigger] units[j]).named(after) by {
        let u = units[j];
        lemma_layer_unit_placed(units, before, j);
        lemma_placed_in_range(u.parameters(), before);
        assert(u.parameters()[u.weights.len() as int] == u.bias);
        assert(after[u.bias] == before[u.bias]);
        assert(u.named(before));
        assert forall|i: int| 0 <= i < u.weights.len() implies after[#[trigger] u.weights[i]]
            == before[u.weights[i]] by {
            assert(u.parameters()[i] == u.weights[i]);
        }
    }
}

/// What one more unit, made with `Neuron::new` from the values of `init`
/// between `lo` and `hi`, adds to a layer under construction.
proof fn lemma_layer_push<S: Scalar>(
    g: Seq<Node<S>>,
    cur: Seq<Node<S>>,
    next: Seq<Node<S>>,
    units: Seq<Unit>,
    unit: Unit,
    init: Seq<S>,
    lo: int,
    hi: int,
)
    requires
        0 <= lo <= hi <= init.len(),
        planted(g, cur, init.take(lo)),
        planted(cur, next, init.subrange(lo, hi)),
        unit.weights == run(cur.len() as int, hi - lo - 1),
        unit.bias == cur.len() + hi - lo - 1,
        hi - lo >= 1,
        unit.named(next),
        placed(unit.parameters(), next),
        layer_parameters(units) == run(g.len() as int, lo),
        layer_named(units, cur),
        forall|j: int| 0 <= j < units.len() ==> placed((#[trigger] units[j]).parameters(), cur),
    ensures
        planted(g, next, init.take(hi)),
        layer_parameters(units.push(unit)) == run(g.len() as int, hi),
        layer_named(units.push(unit), next),
        forall|j: int|
            0 <= j < units.len() + 1 ==> placed(
                (#[trigger] units.push(unit)[j]).parameters(),
                next,
            ),
        placed(layer_parameters(units.push(unit)), next),
{
    let more = units.push(unit);
    lemma_planted_chain(g, cur, next, init.take(lo), init.subrange(lo, hi));
    assert(init.take(lo) + init.subrange(lo, hi) =~= init.take(hi));
    assert(more.drop_last() =~= units);
    assert(more.last() == unit);
    assert(layer_parameters(more) =~= run(g.len() as int, hi));
    assert forall|j: int| 0 <= j < more.len() implies placed(
        (#[trigger] more[j]).parameters(),
        next,
    ) && more[j].named(next) by {
        if j < units.len() {
            let u = units[j];
            assert(more[j] == u);
            lemma_placed_in_range(u.parameters(), cur);
            assert(u.parameters().last() == u.bias);
            assert(u.parameters()[u.weights.len() as int] == u.bias);
            assert(next[u.bias] == cur[u.bias]);
            assert(u.named(cur));
            assert forall|i: int| 0 <= i < u.weights.len() implies next[#[trigger] u.weights[i]]
                == cur[u.weights[i]] by {
                assert(u.parameters()[i] == u.weights[i]);
            }
        }
    }
}

impl Layer<Neuron> {
    /// A layer of `neurons` units with `weights` inputs each. Its parameters
    /// are new leaves of `graph`, unit by unit, and take their values from
    /// `init` in that order.
    pub fn new<S: Scalar>(
        graph: &mut Graph<S>,
        linearity: Linearity,
        neurons: usize,
        weights: usize,
        init: &[S],
    ) -> (layer: Self)
        requires
            acyclic(old(graph)@),
            init@.len() == neurons * (weights + 1),
        ensures
            planted(old(graph)@, final(graph)@, init@),
            layer@.len() == neurons,
            uniform(layer@, weights as int),
            all_apply(layer@, linearity),
            layer_parameters(layer@) == run(old(graph)@.len() as int, init@.len() as int),
            layer_named(layer@, final(graph)@),
            placed(layer_parameters(layer@), final(graph)@),
            acyclic(final(graph)@),
    {
        let ghost g = graph@;
        let ghost mut units: Seq<Unit> = Seq::empty();
        let mut made: Vec<Neuron> = Vec::new();
        let total: usize = init.len();
        let mut k: usize = 0;
        let mut lo: usize = 0;
        proof {
            assert(init@.take(0) =~= Seq::<S>::empty());
            assert(layer_parameters(units) =~= run(g.len() as int, 0));
        }
        while k < neurons
            invariant
                k <= neurons,
                lo == k * (weights + 1),
                init@.len() == neurons * (weights + 1),
                init@.len() == total,
                acyclic(graph@),
                planted(g, graph@, init@.take(lo as int)),
                made@.len() == k == units.len(),
                forall|j: int| 0 <= j < k ==> (#[trigger] made@[j])@ == units[j],
                uniform(units, weights as int),
                all_apply(units, linearity),
                layer_parameters(units) == run(g.len() as int, lo as int),
                layer_named(units, graph@),
                forall|j: int|
                    0 <= j < units.len() ==> placed((#[trigger] units[j]).parameters(), graph@),
                placed(layer_parameters(units), graph@),
            decreases neurons - k,
        {
            let ghost cur = graph@;
            proof {
                assert((k + 1) * (weights + 1) == k * (weights + 1) + (weights + 1)
                    && (k + 1) * (weights + 1) <= neurons * (weights + 1)) by (nonlinear_arith)
                    requires
                        k < neurons,
                ;
                assert(lo + (weights + 1) <= init@.len() <= usize::MAX);
            }
            let hi: usize = lo + (weights + 1);
            let neuron = Neuron::new(graph, linearity, weights, slice_subrange(init, lo, hi));
            proof {
                lemma_layer_push(g, cur, graph@, units, neuron@, init@, lo as int, hi as int);
                units = units.push(neuron@);
            }
            made.push(neuron);
            k = k + 1;
            lo = hi;
        }
        let layer = Layer { neurons: made, result: Vec::new() };
        proof {
            assert(lo == init@.len()) by (nonlinear_arith)
                requires
                    k == neurons,
                    lo == k * (weights + 1),
                    init@.len() == neurons * (weights + 1),
            ;
            assert(init@.take(lo as int) =~= init@);
            assert(layer@ =~= units);
        }
        layer
    }
}

impl<const I: usize> Layer<InputNeuron<I>> {
    /// A layer of `neurons` units with `I` inputs each, made as a layer of
    /// plain units is made.
    pub fn new<S: Scalar>(
        graph: &mut Graph<S>,
        linearity: Linearity,
        neurons: usize,
        init: &[S],
    ) -> (layer: Self)
        requires
            acyclic(old(graph)@),
            init@.len() == neurons * (I + 1),
        ensures
            planted(old(graph)@, final(graph)@, init@),
            layer@.len() == neurons,
            uniform(layer@, I as int),
            all_apply(layer@, linearity),
            layer_parameters(layer@) == run(old(graph)@.len() as int, init@.len() as int),
            layer_named(layer@, final(graph)@),
            placed(layer_parameters(layer@), final(graph)@),
            acyclic(final(graph)@),
    {
        let ghost g = graph@;
        let ghost mut units: Seq<Unit> = Seq::empty();
        let mut made: Vec<InputNeuron<I>> = Vec::new();
        let total: usize = init.len();
        let mut k: usize = 0;
        let mut lo: usize = 0;
        proof {
            assert(init@.take(0) =~= Seq::<S>::empty());
            assert(layer_parameters(units) =~= run(g.len() as int, 0));
        }
        while k < neurons
            invariant
                k <= neurons,
                lo == k * (I + 1),
                init@.len() == neurons * (I + 1),
                init@.len() == total,
                acyclic(graph@),
                planted(g, graph@, init@.take(lo as int)),
                made@.len() == k == units.len(),
                forall|j: int| 0 <= j < k ==> (#[trigger] made@[j])@ == units[j],
                uniform(units, I as int),
                all_apply(units, linearity),
                layer_parameters(units) == run(g.len() as int, lo as int),
                layer_named(units, graph@),
                forall|j: int|
                    0 <= j < units.len() ==> placed((#[trigger] units[j]).parameters(), graph@),
                placed(layer_parameters(units), graph@),
            decreases neurons - k,
        {
            let ghost cur = graph@;
            proof {
                assert((k + 1) * (I + 1) == k * (I + 1) + (I + 1) && (k + 1) * (I + 1) <= neurons
                    * (I + 1)) by (nonlinear_arith)
                    requires
                        k < neurons,
                ;
                assert(lo + (I + 1) <= init@.len() <= usize::MAX);
            }
            let hi: usize = lo + (I + 1);
            let neuron = InputNeuron::<I>::new(graph, linearity, slice_subrange(init, lo, hi));
            proof {
                lemma_layer_push(g, cur, graph@, units, neuron@, init@, lo as int, hi as int);
                units = units.push(neuron@);
            }
            made.push(neuron);
            k = k + 1;
            lo = hi;
        }
        let layer = Layer { neurons: made, result: Vec::new() };
        proof {
            assert(lo == init@.len()) by (nonlinear_arith)
                requires
                    k == neurons,
                    lo == k * (I + 1),
                    init@.len() == neurons * (I + 1),
            ;
            assert(init@.take(lo as int) =~= init@);
            assert(layer@ =~= units);
        }
        layer
    }
}

/// A layer whose units have `I` inputs each.
#[derive(Debug)]
pub struct InputLayer<const I: usize> {
    inner: Layer<InputNeuron<I>>,
}

impl<const I: usize> View for InputLayer<I> {
    type V = Seq<Unit>;

    closed spec fn view(&self) -> Seq<Unit> {
        self.inner@
    }
}

impl<const I: usize> InputLayer<I> {
    /// A layer of `neurons` units with `I` inputs each.
    pub fn new<S: Scalar>(
        graph: &mut Graph<S>,
        linearity: Linearity,
        neurons: usize,
        init: &[S],
    ) -> (layer: Self)
        requires
            acyclic(old(graph)@),
            init@.len() == neurons * (I + 1),
        ensures
            planted(old(graph)@, final(graph)@, init@),
            layer@.len() == neurons,
            uniform(layer@, I as int),
            all_apply(layer@, linearity),
            layer_parameters(layer@) == run(old(graph)@.len() as int, init@.len() as int),
            layer_named(layer@, final(graph)@),
            placed(layer_parameters(layer@), final(graph)@),
            acyclic(final(graph)@),
    {
        InputLayer { inner: Layer::<InputNeuron<I>>::new(graph, linearity, neurons, init) }
    }

    /// The layer inside.
    pub fn as_ref(&self) -> (layer: &Layer<InputNeuron<I>>)
        ensures
            layer@ == self@,
    {
        &self.inner
    }

    /// The layer inside, to run a pass on.
    pub fn as_mut(&mut self) -> (layer: &mut Layer<InputNeuron<I>>)
        ensures
            layer@ == old(self)@,
            final(self)@ == final(layer)@,
    {
        &mut self.inner
    }
}

} // verus!

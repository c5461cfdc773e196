//! The computation graph: its nodes, the operators that extend it, the
//! backward pass that hands gradients from a node to everything it depends
//! on, and the update step.
//!
//! Nodes live in one arena, in the order in which they were made. A `Value` is
//! the position of a node in it. An operator can only name nodes that exist
//! already, so every operand stands before the node that uses it and the
//! arena's order is a topological order of the graph.
use crate::gradient::{
    delivers, gathered, handed, lemma_gathered_frame, lemma_pending_settles, lemma_pending_step,
    lemma_receives_structure, nudged, pending, propagates, reaches, receives, same_but_gradients,
    turn,
};
use crate::node::{
    acyclic, built, extended, first_operand, grown, lemma_built_chain, lemma_extended_is_built,
    precedes, second_operand, Derivation, Node,
};
use crate::scalar::{
    gated, is_difference, is_int, is_product, is_sum, is_text, power_slope, rectified, sigmoid,
    sigmoid_slope, tanh_slope, Scalar,
};
use vstd::prelude::*;
use vstd::string::*;

verus! {

/// A node of a graph, named by its position in the arena.
#[derive(Clone, Copy, Debug, PartialEq, Eq, Structural)]
pub struct Value {
    index: usize,
}

impl View for Value {
    type V = int;

    closed spec fn view(&self) -> int {
        self.index as int
    }
}

/// How a node's value was derived, and from which nodes.
#[derive(Debug)]
pub enum Operation<S> {
    Const,
    Add(Value, Value),
    Sub(Value, Value),
    Mul(Value, Value),
    Pow(Value, S),
    Tanh(Value),
    ReLu(Value),
    Sigmoid(Value),
}

impl<S: Copy> Clone for Operation<S> {
    fn clone(&self) -> (r: Self)
        ensures
            r == *self,
    {
        *self
    }
}

impl<S: Copy> Copy for Operation<S> {

}

impl<S> View for Operation<S> {
    type V = Derivation<S>;

    open spec fn view(&self) -> Derivation<S> {
        match *self {
            Operation::Const => Derivation::Const,
            Operation::Add(a, b) => Derivation::Add(a@, b@),
            Operation::Sub(a, b) => Derivation::Sub(a@, b@),
            Operation::Mul(a, b) => Derivation::Mul(a@, b@),
            Operation::Pow(a, e) => Derivation::Pow(a@, e),
            Operation::Tanh(a) => Derivation::Tanh(a@),
            Operation::ReLu(a) => Derivation::ReLu(a@),
            Operation::Sigmoid(a) => Derivation::Sigmoid(a@),
        }
    }
}

/// What the arena stores of a node.
#[derive(Debug)]
pub struct ValueInner<S> {
    data: S,
    label: String,
    op: Operation<S>,
    gradient: S,
}

impl<S> View for ValueInner<S> {
    type V = Node<S>;

    closed spec fn view(&self) -> Node<S> {
        Node { value: self.data, gradient: self.gradient, op: self.op@, label: self.label@ }
    }
}

/// The arena of nodes. Its view is the sequence of its nodes.
#[derive(Debug)]
pub struct Graph<S> {
    nodes: Vec<ValueInner<S>>,
}

impl<S> View for Graph<S> {
    type V = Seq<Node<S>>;

    closed spec fn view(&self) -> Seq<Node<S>> {
        Seq::new(self.nodes@.len(), |i: int| self.nodes@[i]@)
    }
}

/// The positions that a list of values names.
pub open spec fn positions(values: Seq<Value>) -> Seq<int> {
    Seq::new(values.len(), |i: int| values[i]@)
}

impl Value {
    /// The node's position in the arena.
    pub fn index(&self) -> (i: usize)
        ensures
            i == self@,
    {
        self.index
    }
}

impl<S: Scalar> Graph<S> {
    /// A graph without nodes.
    pub fn new() -> (graph: Self)
        ensures
            graph@.len() == 0,
            acyclic(graph@),
    {
        Graph { nodes: Vec::new() }
    }

    /// The number of nodes.
    pub fn len(&self) -> (n: usize)
        ensures
            n == self@.len(),
    {
        self.nodes.len()
    }

    /// Whether `value` names a node of this graph.
    pub fn contains(&self, value: Value) -> (b: bool)
        ensures
            b == (value@ < self@.len()),
    {
        value.index < self.nodes.len()
    }

    /// Releases every node from position `len` on. The nodes before it stay
    /// as they are; a graph that is no longer than `len` is left alone.
    pub fn truncate(&mut self, len: usize)
        requires
            acyclic(old(self)@),
        ensures
            len <= old(self)@.len() ==> final(self)@ == old(self)@.take(len as int),
            len > old(self)@.len() ==> final(self)@ == old(self)@,
            acyclic(final(self)@),
    {
        let ghost before = self@;
        self.nodes.truncate(len);
        proof {
            if len <= before.len() {
                assert(self@ =~= before.take(len as int));
            } else {
                assert(self@ =~= before);
            }
        }
    }
}

impl Value {
    /// Appends a node with no gradient yet and hands back its position.
    fn new_with_children<S: Scalar>(
        graph: &mut Graph<S>,
        data: S,
        label: String,
        op: Operation<S>,
    ) -> (made: Value)
        requires
            acyclic(old(graph)@),
            precedes(op@, old(graph)@.len() as int),
        ensures
            grown(old(graph)@, final(graph)@, 1),
            made@ == old(graph)@.len(),
            final(graph)@[made@].value == data,
            final(graph)@[made@].label == label@,
            final(graph)@[made@].op == op@,
            is_int(0, final(graph)@[made@].gradient),
            acyclic(final(graph)@),
    {
        let ghost before = graph@;
        let index: usize = graph.nodes.len();
        let gradient = S::from_int(0);
        graph.nodes.push(ValueInner { data, label, op, gradient });
        proof {
            assert forall|i: int| 0 <= i < graph@.len() implies precedes(
                #[trigger] graph@[i].op,
                i,
            ) by {
                if i < before.len() {
                    assert(graph@[i] == before[i]);
                    assert(precedes(before[i].op, i));
                }
            }
        }
        Value { index }
    }

    /// A leaf: a node with the given value that depends on no other.
    pub fn new<S: Scalar>(graph: &mut Graph<S>, data: S, label: &str) -> (made: Value)
        requires
            acyclic(old(graph)@),
        ensures
            extended(old(graph)@, final(graph)@, Derivation::Const, made@),
            final(graph)@[made@].value == data,
            final(graph)@[made@].label == label@,
            acyclic(final(graph)@),
    {
        Self::new_with_children(graph, data, String::from_str(label), Operation::Const)
    }

    /// The node `self + rhs`.
    pub fn add<S: Scalar>(self, graph: &mut Graph<S>, rhs: Value) -> (made: Value)
        requires
            acyclic(old(graph)@),
            self@ < old(graph)@.len(),
            rhs@ < old(graph)@.len(),
        ensures
            extended(old(graph)@, final(graph)@, Operation::Add(self, rhs)@, made@),
            acyclic(final(graph)@),
    {
        let data = graph.nodes[self.index].data.add(&graph.nodes[rhs.index].data);
        let mut label = graph.nodes[self.index].label.clone();
        label.append(" + ");
        label.append(graph.nodes[rhs.index].label.as_str());
        Self::new_with_children(graph, data, label, Operation::Add(self, rhs))
    }

    /// The node `self - rhs`.
    pub fn sub<S: Scalar>(self, graph: &mut Graph<S>, rhs: Value) -> (made: Value)
        requires
            acyclic(old(graph)@),
            self@ < old(graph)@.len(),
            rhs@ < old(graph)@.len(),
        ensures
            extended(old(graph)@, final(graph)@, Operation::Sub(self, rhs)@, made@),
            acyclic(final(graph)@),
    {
        let data = graph.nodes[self.index].data.sub(&graph.nodes[rhs.index].data);
        let mut label = graph.nodes[self.index].label.clone();
        label.append(" - ");
        label.append(graph.nodes[rhs.index].label.as_str());
        Self::new_with_children(graph, data, label, Operation::Sub(self, rhs))
    }

    /// The node `self * rhs`.
    pub fn mul<S: Scalar>(self, graph: &mut Graph<S>, rhs: Value) -> (made: Value)
        requires
            acyclic(old(graph)@),
            self@ < old(graph)@.len(),
            rhs@ < old(graph)@.len(),
        ensures
            extended(old(graph)@, final(graph)@, Operation::Mul(self, rhs)@, made@),
            acyclic(final(graph)@),
    {
        let data = graph.nodes[self.index].data.mul(&graph.nodes[rhs.index].data);
        let mut label = graph.nodes[self.index].label.clone();
        label.append(" * ");
        label.append(graph.nodes[rhs.index].label.as_str());
        Self::new_with_children(graph, data, label, Operation::Mul(self, rhs))
    }

    /// The node `self ^ exp`. The exponent is a plain number, not a node.
    pub fn pow<S: Scalar>(self, graph: &mut Graph<S>, exp: S) -> (made: Value)
        requires
            acyclic(old(graph)@),
            self@ < old(graph)@.len(),
        ensures
            extended(old(graph)@, final(graph)@, Operation::Pow(self, exp)@, made@),
            acyclic(final(graph)@),
    {
        let data = graph.nodes[self.index].data.powf(&exp);
        let mut label = graph.nodes[self.index].label.clone();
        label.append("^");
        let text = exp.text();
        label.append(text.as_str());
        assert(is_text(exp, text@));
        Self::new_with_children(graph, data, label, Operation::Pow(self, exp))
    }

    /// The node `tanh(self)`.
    pub fn tanh<S: Scalar>(self, graph: &mut Graph<S>) -> (made: Value)
        requires
            acyclic(old(graph)@),
            self@ < old(graph)@.len(),
        ensures
            extended(old(graph)@, final(graph)@, Operation::Tanh(self)@, made@),
            acyclic(final(graph)@),
    {
        let data = graph.nodes[self.index].data.tanh();
        let mut label = String::from_str("tanh(");
        label.append(graph.nodes[self.index].label.as_str());
        label.append(")");
        Self::new_with_children(graph, data, label, Operation::Tanh(self))
    }

    /// The node `sigmoid(self)`, computed as `1 / (1 + exp(-self))`.
    pub fn sigmoid<S: Scalar>(self, graph: &mut Graph<S>) -> (made: Value)
        requires
            acyclic(old(graph)@),
            self@ < old(graph)@.len(),
        ensures
            extended(old(graph)@, final(graph)@, Operation::Sigmoid(self)@, made@),
            acyclic(final(graph)@),
    {
        let data = sigmoid(graph.nodes[self.index].data);
        let mut label = String::from_str("sigmoid(");
        label.append(graph.nodes[self.index].label.as_str());
        label.append(")");
        Self::new_with_children(graph, data, label, Operation::Sigmoid(self))
    }

    /// The node `relu(self)`: zero where `self` is below zero, `self` otherwise.
    pub fn relu<S: Scalar>(self, graph: &mut Graph<S>) -> (made: Value)
        requires
            acyclic(old(graph)@),
            self@ < old(graph)@.len(),
        ensures
            extended(old(graph)@, final(graph)@, Operation::ReLu(self)@, made@),
            acyclic(final(graph)@),
    {
        let data = rectified(graph.nodes[self.index].data);
        let mut label = String::from_str("ReLu(");
        label.append(graph.nodes[self.index].label.as_str());
        label.append(")");
        Self::new_with_children(graph, data, label, Operation::ReLu(self))
    }
}

/// The first operand of `op`, if it has one.
fn first_of<S: Scalar>(op: Operation<S>) -> (o: Option<Value>)
    ensures
        first_operand(op@) == match o {
            Some(a) => Some(a@),
            None => None,
        },
{
    match op {
        Operation::Const => None,
        Operation::Add(a, _) => Some(a),
        Operation::Sub(a, _) => Some(a),
        Operation::Mul(a, _) => Some(a),
        Operation::Pow(a, _) => Some(a),
        Operation::Tanh(a) => Some(a),
        Operation::ReLu(a) => Some(a),
        Operation::Sigmoid(a) => Some(a),
    }
}

/// The second operand of `op`, if it has one.
fn second_of<S: Scalar>(op: Operation<S>) -> (o: Option<Value>)
    ensures
        second_operand(op@) == match o {
            Some(b) => Some(b@),
            None => None,
        },
{
    match op {
        Operation::Add(_, b) => Some(b),
        Operation::Sub(_, b) => Some(b),
        Operation::Mul(_, b) => Some(b),
        _ => None,
    }
}

impl<S: Scalar> Graph<S> {
    /// Adds `share` to the gradient of `target`.
    fn accumulate(&mut self, target: Value, share: S)
        requires
            target@ < old(self)@.len(),
        ensures
            same_but_gradients(old(self)@, final(self)@),
            forall|i: int|
                0 <= i < old(self)@.len() && i != target@ ==> (#[trigger] final(self)@[i])
                    == old(self)@[i],
            is_sum(old(self)@[target@].gradient, share, final(self)@[target@].gradient),
    {
        let before = self.nodes[target.index].gradient;
        self.nodes[target.index].gradient = before.add(&share);
    }

    /// Takes `share` off the gradient of `target`.
    fn deduct(&mut self, target: Value, share: S)
        requires
            target@ < old(self)@.len(),
        ensures
            same_but_gradients(old(self)@, final(self)@),
            forall|i: int|
                0 <= i < old(self)@.len() && i != target@ ==> (#[trigger] final(self)@[i])
                    == old(self)@[i],
            is_difference(old(self)@[target@].gradient, share, final(self)@[target@].gradient),
    {
        let before = self.nodes[target.index].gradient;
        self.nodes[target.index].gradient = before.sub(&share);
    }

    /// Applies the derivative rule of the node at `m`: each operand's gradient
    /// grows by the node's own gradient times the local slope.
    fn propagate(&mut self, m: usize)
        requires
            m < old(self)@.len(),
            acyclic(old(self)@),
        ensures
            propagates(old(self)@, final(self)@, m as int),
    {
        let ghost g = self@;
        let op = self.nodes[m].op;
        let upstream = self.nodes[m].gradient;
        let y = self.nodes[m].data;
        assert(precedes(g[m as int].op, m as int));
        match op {
            Operation::Const => {},
            Operation::Add(a, b) => {
                self.accumulate(a, upstream);
                let ghost between = self@[a@].gradient;
                self.accumulate(b, upstream);
                assert(delivers(g, m as int, 0, upstream, g[a@].gradient, between));
            },
            Operation::Sub(a, b) => {
                self.accumulate(a, upstream);
                let ghost between = self@[a@].gradient;
                self.deduct(b, upstream);
                assert(delivers(g, m as int, 0, upstream, g[a@].gradient, between));
            },
            Operation::Mul(a, b) => {
                let left = self.nodes[b.index].data.mul(&upstream);
                self.accumulate(a, left);
                let ghost between = self@[a@].gradient;
                let right = self.nodes[a.index].data.mul(&upstream);
                self.accumulate(b, right);
                assert(is_product(g[b@].value, upstream, left));
                assert(is_product(g[a@].value, upstream, right));
                assert(delivers(g, m as int, 0, upstream, g[a@].gradient, between));
            },
            Operation::Pow(a, e) => {
                let slope = power_slope(self.nodes[a.index].data, e);
                let share = slope.mul(&upstream);
                self.accumulate(a, share);
                assert(is_product(slope, upstream, share));
            },
            Operation::Tanh(a) => {
                let slope = tanh_slope(y);
                let share = slope.mul(&upstream);
                self.accumulate(a, share);
                assert(is_product(slope, upstream, share));
            },
            Operation::Sigmoid(a) => {
                let slope = sigmoid_slope(y);
                let share = slope.mul(&upstream);
                self.accumulate(a, share);
                assert(is_product(slope, upstream, share));
            },
            Operation::ReLu(a) => {
                let share = gated(y, upstream);
                self.accumulate(a, share);
            },
        }
        assert forall|n: int| 0 <= n < g.len() implies receives(
            g,
            m as int,
            n,
            g[m as int].gradient,
            g[n].gradient,
            (#[trigger] self@[n]).gradient,
        ) by {}
    }
}

impl Value {
    /// The backward pass from this node.
    ///
    /// The node's own gradient becomes one. Then every node on which it
    /// depends hands its gradient on to its operands by its derivative rule,
    /// once, and only after every node that uses it has done so: the nodes
    /// take their turn from this one down to the first. Nodes on which this
    /// one does not depend keep their gradients, and nothing but gradients
    /// changes.
    pub fn backward<S: Scalar>(&self, graph: &mut Graph<S>)
        requires
            acyclic(old(graph)@),
            self@ < old(graph)@.len(),
        ensures
            same_but_gradients(old(graph)@, final(graph)@),
            acyclic(final(graph)@),
            is_int(1, final(graph)@[self@].gradient),
            forall|n: int|
                0 <= n < old(graph)@.len() && !reaches(old(graph)@, self@, n) ==> (
                #[trigger] final(graph)@[n]).gradient == old(graph)@[n].gradient,
            forall|n: int|
                0 <= n < self@ ==> gathered(
                    old(graph)@,
                    final(graph)@,
                    self@,
                    n,
                    n + 1,
                    (#[trigger] final(graph)@[n]).gradient,
                ),
    {
        let ghost g = graph@;
        let ghost root = self@;
        let seed = S::from_int(1);
        graph.nodes[self.index].gradient = seed;
        let mut marks: Vec<bool> = Vec::new();
        let mut i: usize = 0;
        while i < self.index
            invariant
                i <= self.index,
                marks@.len() == i,
                forall|n: int| 0 <= n < i ==> !(#[trigger] marks@[n]),
            decreases self.index - i,
        {
            marks.push(false);
            i = i + 1;
        }
        marks.push(true);
        let mut k: usize = marks.len();
        assert forall|n: int| 0 <= n < root implies gathered(
            g,
            graph@,
            root,
            n,
            turn(k as int, n),
            (#[trigger] graph@[n]).gradient,
        ) by {}
        while k > 0
            invariant
                root == self@,
                0 <= k <= root + 1,
                root < g.len(),
                marks@.len() == root + 1,
                acyclic(g),
                same_but_gradients(g, graph@),
                is_int(1, graph@[root].gradient),
                forall|n: int|
                    0 <= n <= root ==> #[trigger] marks@[n] == pending(
                        g,
                        root,
                        n,
                        turn(k as int, n),
                    ),
                forall|n: int|
                    0 <= n < g.len() && n != root && (n > root || !marks@[n]) ==> (
                    #[trigger] graph@[n]).gradient == g[n].gradient,
                forall|n: int|
                    0 <= n < root ==> gathered(
                        g,
                        graph@,
                        root,
                        n,
                        turn(k as int, n),
                        (#[trigger] graph@[n]).gradient,
                    ),
            decreases k,
        {
            k = k - 1;
            let ghost cur = graph@;
            let ghost was = marks@;
            let op = graph.nodes[k].op;
            assert(precedes(g[k as int].op, k as int));
            proof {
                lemma_pending_settles(g, root, k as int);
            }
            if marks[k] {
                graph.propagate(k);
                match first_of(op) {
                    Some(a) => {
                        marks[a.index] = true;
                    },
                    None => {},
                }
                match second_of(op) {
                    Some(b) => {
                        marks[b.index] = true;
                    },
                    None => {},
                }
            }
            proof {
                let now = graph@;
                assert(cur[k as int].op == g[k as int].op);
                assert forall|n: int| 0 <= n < g.len() implies handed(
                    g,
                    now,
                    root,
                    k as int,
                    n,
                    cur[n].gradient,
                    (#[trigger] now[n]).gradient,
                ) by {
                    if reaches(g, root, k as int) {
                        lemma_receives_structure(
                            g,
                            cur,
                            k as int,
                            n,
                            cur[k as int].gradient,
                            cur[n].gradient,
                            now[n].gradient,
                        );
                        assert(now[k as int].gradient == cur[k as int].gradient);
                    }
                }
                assert forall|n: int| 0 <= n <= root implies #[trigger] marks@[n] == pending(
                    g,
                    root,
                    n,
                    turn(k as int, n),
                ) by {
                    if n < k {
                        lemma_pending_step(g, root, n, k as int);
                    }
                }
                assert forall|n: int| 0 <= n < root implies gathered(
                    g,
                    now,
                    root,
                    n,
                    turn(k as int, n),
                    (#[trigger] now[n]).gradient,
                ) by {
                    lemma_gathered_frame(
                        g,
                        cur,
                        now,
                        root,
                        n,
                        turn(k as int + 1, n),
                        cur[n].gradient,
                    );
                    if n < k {
                        assert(gathered(g, now, root, n, k as int + 1, cur[n].gradient) && handed(
                            g,
                            now,
                            root,
                            k as int,
                            n,
                            cur[n].gradient,
                            now[n].gradient,
                        ));
                    }
                }
            }
        }
        proof {
            assert forall|n: int| 0 <= n < g.len() && !reaches(g, root, n) implies (
            #[trigger] graph@[n]).gradient == g[n].gradient by {
                lemma_pending_settles(g, root, n);
            }
        }
    }
}

/// The steps that sum `values` up from zero: a leaf, then one addition for
/// each value, each to the sum so far. `base` is where the leaf comes to stand.
pub open spec fn sum_steps<S>(values: Seq<Value>, base: int) -> Seq<Derivation<S>> {
    Seq::new(
        (values.len() + 1) as nat,
        |i: int|
            if i == 0 {
                Derivation::Const
            } else {
                Derivation::Add(base + i - 1, values[i - 1]@)
            },
    )
}

impl Value {
    /// The node's value.
    pub fn value<S: Scalar>(&self, graph: &Graph<S>) -> (data: S)
        requires
            self@ < graph@.len(),
        ensures
            data == graph@[self@].value,
    {
        graph.nodes[self.index].data
    }

    /// The node's value.
    pub fn data<S: Scalar>(&self, graph: &Graph<S>) -> (data: S)
        requires
            self@ < graph@.len(),
        ensures
            data == graph@[self@].value,
    {
        graph.nodes[self.index].data
    }

    /// The gradient that the node has gathered.
    pub fn gradient<S: Scalar>(&self, graph: &Graph<S>) -> (gradient: S)
        requires
            self@ < graph@.len(),
        ensures
            gradient == graph@[self@].gradient,
    {
        graph.nodes[self.index].gradient
    }

    /// The node's label.
    pub fn label<S: Scalar>(&self, graph: &Graph<S>) -> (label: String)
        requires
            self@ < graph@.len(),
        ensures
            label@ == graph@[self@].label,
    {
        graph.nodes[self.index].label.clone()
    }

    /// Gives the node another value and leaves the rest as it is.
    pub fn set_data<S: Scalar>(&self, graph: &mut Graph<S>, data: S)
        requires
            acyclic(old(graph)@),
            self@ < old(graph)@.len(),
        ensures
            final(graph)@ == old(graph)@.update(
                self@,
                Node {
                    value: data,
                    gradient: old(graph)@[self@].gradient,
                    op: old(graph)@[self@].op,
                    label: old(graph)@[self@].label,
                },
            ),
            acyclic(final(graph)@),
    {
        let ghost before = graph@;
        graph.nodes[self.index].data = data;
        proof {
            let expected = before.update(
                self@,
                Node {
                    value: data,
                    gradient: before[self@].gradient,
                    op: before[self@].op,
                    label: before[self@].label,
                },
            );
            assert(graph@ =~= expected);
            assert forall|i: int| 0 <= i < graph@.len() implies precedes(
                #[trigger] graph@[i].op,
                i,
            ) by {
                assert(precedes(before[i].op, i));
            }
        }
    }

    /// The update step on this node: `value -= learning_rate * gradient`,
    /// then `gradient = 0`. Every other node stays as it is.
    pub fn nudge<S: Scalar>(&self, graph: &mut Graph<S>, learning_rate: S)
        requires
            acyclic(old(graph)@),
            self@ < old(graph)@.len(),
        ensures
            final(graph)@.len() == old(graph)@.len(),
            forall|i: int|
                0 <= i < old(graph)@.len() && i != self@ ==> #[trigger] final(graph)@[i] == old(
                    graph,
                )@[i],
            nudged(old(graph)@[self@], final(graph)@[self@], learning_rate),
            acyclic(final(graph)@),
    {
        let ghost before = graph@;
        let gradient = graph.nodes[self.index].gradient;
        let step = learning_rate.mul(&gradient);
        let data = graph.nodes[self.index].data.sub(&step);
        graph.nodes[self.index].data = data;
        graph.nodes[self.index].gradient = S::from_int(0);
        proof {
            assert(is_product(learning_rate, before[self@].gradient, step) && is_difference(
                before[self@].value,
                step,
                graph@[self@].value,
            ));
            assert forall|i: int| 0 <= i < graph@.len() implies precedes(
                #[trigger] graph@[i].op,
                i,
            ) by {
                assert(precedes(before[i].op, i));
            }
        }
    }

    /// The sum of `values`: a leaf of value zero, to which each of them is
    /// added in turn.
    pub fn sum<S: Scalar>(graph: &mut Graph<S>, values: &[Value]) -> (made: Value)
        requires
            acyclic(old(graph)@),
            forall|i: int| 0 <= i < values@.len() ==> (#[trigger] values@[i])@ < old(graph)@.len(),
        ensures
            built(old(graph)@, final(graph)@, sum_steps(values@, old(graph)@.len() as int)),
            made@ == old(graph)@.len() + values@.len(),
            is_int(0, final(graph)@[old(graph)@.len() as int].value),
            final(graph)@[old(graph)@.len() as int].label == "SUM"@,
            acyclic(final(graph)@),
    {
        let ghost g = graph@;
        let ghost base = g.len() as int;
        let ghost steps = sum_steps::<S>(values@, base);
        let zero = S::from_int(0);
        let mut total = Value::new(graph, zero, "SUM");
        proof {
            lemma_extended_is_built(g, graph@, Derivation::Const, total@);
            assert(steps.take(1) =~= seq![Derivation::Const]);
        }
        let mut i: usize = 0;
        while i < values.len()
            invariant
                i <= values@.len(),
                base == g.len(),
                steps == sum_steps::<S>(values@, base),
                acyclic(graph@),
                total@ == base + i,
                built(g, graph@, steps.take(i + 1)),
                is_int(0, graph@[base].value),
                graph@[base].label == "SUM"@,
                forall|i: int| 0 <= i < values@.len() ==> (#[trigger] values@[i])@ < g.len(),
            decreases values@.len() - i,
        {
            let ghost cur = graph@;
            let previous = total;
            total = previous.add(graph, values[i]);
            proof {
                let op = Operation::<S>::Add(previous, values@[i as int])@;
                lemma_extended_is_built(cur, graph@, op, total@);
                lemma_built_chain(g, cur, graph@, steps.take(i + 1), seq![op]);
                assert(steps.take(i + 2) =~= steps.take(i + 1) + seq![op]);
                assert(graph@[base] == cur[base]);
            }
            i = i + 1;
        }
        proof {
            assert(steps.take(values@.len() + 1 as int) =~= steps);
        }
        total
    }
}

} // verus!

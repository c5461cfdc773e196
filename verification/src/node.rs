//! A computation graph as the contracts see it: a sequence of nodes, each
//! with its value, its gradient, and the operation that made it from nodes
//! that stand before it.
use crate::scalar::{
    is_difference, is_int, is_power, is_product, is_rectified, is_sigmoid, is_sum, is_tanh,
    is_text, Scalar,
};
use vstd::prelude::*;

verus! {

/// An operation as the contracts see it: its operands by their positions.
pub ghost enum Derivation<S> {
    Const,
    Add(int, int),
    Sub(int, int),
    Mul(int, int),
    Pow(int, S),
    Tanh(int),
    ReLu(int),
    Sigmoid(int),
}

/// A node as the contracts see it.
pub ghost struct Node<S> {
    pub value: S,
    pub gradient: S,
    pub op: Derivation<S>,
    pub label: Seq<char>,
}

/// The position of the first operand, if there is one.
pub open spec fn first_operand<S>(op: Derivation<S>) -> Option<int> {
    match op {
        Derivation::Const => None,
        Derivation::Add(a, _) => Some(a),
        Derivation::Sub(a, _) => Some(a),
        Derivation::Mul(a, _) => Some(a),
        Derivation::Pow(a, _) => Some(a),
        Derivation::Tanh(a) => Some(a),
        Derivation::ReLu(a) => Some(a),
        Derivation::Sigmoid(a) => Some(a),
    }
}

/// The position of the second operand, if there is one.
pub open spec fn second_operand<S>(op: Derivation<S>) -> Option<int> {
    match op {
        Derivation::Add(_, b) => Some(b),
        Derivation::Sub(_, b) => Some(b),
        Derivation::Mul(_, b) => Some(b),
        _ => None,
    }
}

/// Whether the node at `n` is an operand of `op`.
pub open spec fn uses<S>(op: Derivation<S>, n: int) -> bool {
    first_operand(op) == Some(n) || second_operand(op) == Some(n)
}

/// Whether every operand of `op` stands before position `i`.
pub open spec fn precedes<S>(op: Derivation<S>, i: int) -> bool {
    &&& first_operand(op) matches Some(a) ==> 0 <= a < i
    &&& second_operand(op) matches Some(b) ==> 0 <= b < i
}

/// Every node's operands stand before it, so no node depends on itself.
pub open spec fn acyclic<S>(g: Seq<Node<S>>) -> bool {
    forall|i: int| 0 <= i < g.len() ==> precedes(#[trigger] g[i].op, i)
}

/// `after` is `before` with `by` more nodes behind it.
pub open spec fn grown<S>(before: Seq<Node<S>>, after: Seq<Node<S>>, by: int) -> bool {
    &&& after.len() == before.len() + by
    &&& forall|i: int| 0 <= i < before.len() ==> #[trigger] after[i] == before[i]
}

/// The value of the node at `i` is what its operation gives on the values of
/// its operands.
pub open spec fn computed<S: Scalar>(g: Seq<Node<S>>, i: int) -> bool {
    match g[i].op {
        Derivation::Const => true,
        Derivation::Add(a, b) => is_sum(g[a].value, g[b].value, g[i].value),
        Derivation::Sub(a, b) => is_difference(g[a].value, g[b].value, g[i].value),
        Derivation::Mul(a, b) => is_product(g[a].value, g[b].value, g[i].value),
        Derivation::Pow(a, e) => is_power(g[a].value, e, g[i].value),
        Derivation::Tanh(a) => is_tanh(g[a].value, g[i].value),
        Derivation::ReLu(a) => is_rectified(g[a].value, g[i].value),
        Derivation::Sigmoid(a) => is_sigmoid(g[a].value, g[i].value),
    }
}

/// The label of the node at `i` is written from the labels of its operands.
pub open spec fn labelled<S: Scalar>(g: Seq<Node<S>>, i: int) -> bool {
    match g[i].op {
        Derivation::Const => true,
        Derivation::Add(a, b) => g[i].label == g[a].label + " + "@ + g[b].label,
        Derivation::Sub(a, b) => g[i].label == g[a].label + " - "@ + g[b].label,
        Derivation::Mul(a, b) => g[i].label == g[a].label + " * "@ + g[b].label,
        Derivation::Pow(a, e) => exists|t: Seq<char>|
            is_text(e, t) && g[i].label == g[a].label + "^"@ + t,
        Derivation::Tanh(a) => g[i].label == "tanh("@ + g[a].label + ")"@,
        Derivation::ReLu(a) => g[i].label == "ReLu("@ + g[a].label + ")"@,
        Derivation::Sigmoid(a) => g[i].label == "sigmoid("@ + g[a].label + ")"@,
    }
}

/// The node at `i` is as an operator leaves it: no gradient yet, its value
/// computed from its operands, its label written from theirs.
pub open spec fn fresh<S: Scalar>(g: Seq<Node<S>>, i: int) -> bool {
    &&& is_int(0, g[i].gradient)
    &&& computed(g, i)
    &&& labelled(g, i)
}

/// `after` is `before` with one node more, made by `op`, at the position
/// that `made` names.
pub open spec fn extended<S: Scalar>(
    before: Seq<Node<S>>,
    after: Seq<Node<S>>,
    op: Derivation<S>,
    made: int,
) -> bool {
    &&& grown(before, after, 1)
    &&& made == before.len()
    &&& after[made].op == op
    &&& fresh(after, made)
}

/// `after` is `before` with one node more for each of `steps`, made in
/// that order, each as its operator leaves it.
pub open spec fn built<S: Scalar>(
    before: Seq<Node<S>>,
    after: Seq<Node<S>>,
    steps: Seq<Derivation<S>>,
) -> bool {
    &&& grown(before, after, steps.len() as int)
    &&& forall|j: int|
        before.len() <= j < after.len() ==> (#[trigger] after[j]).op == steps[j - before.len()]
            && fresh(after, j)
}

/// The nodes of `g` from `base` on are those of `steps`, in that order, each
/// as its operator leaves it.
pub open spec fn laid<S: Scalar>(g: Seq<Node<S>>, steps: Seq<Derivation<S>>, base: int) -> bool {
    &&& 0 <= base
    &&& base + steps.len() <= g.len()
    &&& forall|j: int|
        base <= j < base + steps.len() ==> (#[trigger] g[j]).op == steps[j - base] && fresh(g, j)
}

/// `after` is `before` with one leaf more for each of `values`, in that
/// order, each with its value and without a gradient.
pub open spec fn planted<S: Scalar>(
    before: Seq<Node<S>>,
    after: Seq<Node<S>>,
    values: Seq<S>,
) -> bool {
    &&& grown(before, after, values.len() as int)
    &&& forall|j: int|
        before.len() <= j < after.len() ==> {
            &&& (#[trigger] after[j]).op == Derivation::<S>::Const
            &&& after[j].value == values[j - before.len()]
            &&& is_int(0, after[j].gradient)
        }
}

/// The positions from `base` on, `count` of them.
pub open spec fn run(base: int, count: int) -> Seq<int> {
    Seq::new(count as nat, |i: int| base + i)
}

/// Each position is below the next.
pub open spec fn increasing(p: Seq<int>) -> bool {
    forall|i: int, j: int| 0 <= i < j < p.len() ==> p[i] < p[j]
}

/// The positions are those of nodes of their own: none is below zero, and
/// each is below the next.
pub open spec fn ascending(p: Seq<int>) -> bool {
    &&& increasing(p)
    &&& p.len() > 0 ==> 0 <= p[0]
}

/// The positions are those of nodes of `g`, each its own.
pub open spec fn placed<S>(p: Seq<int>, g: Seq<Node<S>>) -> bool {
    &&& ascending(p)
    &&& p.len() > 0 ==> p.last() < g.len()
}

/// A node that an operator has left stays as it was left while the graph grows.
pub proof fn lemma_fresh_stays<S: Scalar>(before: Seq<Node<S>>, after: Seq<Node<S>>, j: int)
    requires
        0 <= j < before.len() <= after.len(),
        forall|i: int| 0 <= i < before.len() ==> #[trigger] after[i] == before[i],
        precedes(before[j].op, j),
        fresh(before, j),
    ensures
        fresh(after, j),
{
    assert(after[j] == before[j]);
    match before[j].op {
        Derivation::Const => {},
        Derivation::Add(a, b) => {
            assert(after[a] == before[a] && after[b] == before[b]);
        },
        Derivation::Sub(a, b) => {
            assert(after[a] == before[a] && after[b] == before[b]);
        },
        Derivation::Mul(a, b) => {
            assert(after[a] == before[a] && after[b] == before[b]);
        },
        Derivation::Pow(a, e) => {
            assert(after[a] == before[a]);
            let t = choose|t: Seq<char>|
                is_text(e, t) && before[j].label == before[a].label + "^"@ + t;
            assert(is_text(e, t) && after[j].label == after[a].label + "^"@ + t);
        },
        Derivation::Tanh(a) => {
            assert(after[a] == before[a]);
        },
        Derivation::ReLu(a) => {
            assert(after[a] == before[a]);
        },
        Derivation::Sigmoid(a) => {
            assert(after[a] == before[a]);
        },
    }
}

/// One operator's node is a round of one step.
pub proof fn lemma_extended_is_built<S: Scalar>(
    before: Seq<Node<S>>,
    after: Seq<Node<S>>,
    op: Derivation<S>,
    made: int,
)
    requires
        extended(before, after, op, made),
    ensures
        built(before, after, seq![op]),
{
}

/// Building in two rounds is building the steps of both, one after the other.
pub proof fn lemma_built_chain<S: Scalar>(
    start: Seq<Node<S>>,
    middle: Seq<Node<S>>,
    end: Seq<Node<S>>,
    first: Seq<Derivation<S>>,
    second: Seq<Derivation<S>>,
)
    requires
        acyclic(middle),
        built(start, middle, first),
        built(middle, end, second),
    ensures
        built(start, end, first + second),
{
    assert forall|i: int| 0 <= i < start.len() implies #[trigger] end[i] == start[i] by {
        assert(middle[i] == start[i]);
    }
    assert forall|j: int| start.len() <= j < end.len() implies (#[trigger] end[j]).op == (first
        + second)[j - start.len()] && fresh(end, j) by {
        if j < middle.len() {
            assert(end[j] == middle[j]);
            lemma_fresh_stays(middle, end, j);
        }
    }
}

/// What was built stands where the graph ended before.
pub proof fn lemma_built_is_laid<S: Scalar>(
    before: Seq<Node<S>>,
    after: Seq<Node<S>>,
    steps: Seq<Derivation<S>>,
)
    requires
        built(before, after, steps),
    ensures
        laid(after, steps, before.len() as int),
{
}

/// Steps that are laid in a row are laid each in its place.
pub proof fn lemma_laid_split<S: Scalar>(
    g: Seq<Node<S>>,
    first: Seq<Derivation<S>>,
    second: Seq<Derivation<S>>,
    base: int,
)
    requires
        laid(g, first + second, base),
    ensures
        laid(g, first, base),
        laid(g, second, base + first.len()),
{
    let both = first + second;
    assert forall|j: int| base <= j < base + first.len() implies (#[trigger] g[j]).op == first[j
        - base] && fresh(g, j) by {
        assert(both[j - base] == first[j - base]);
    }
    assert forall|j: int|
        base + first.len() <= j < base + first.len() + second.len() implies (#[trigger] g[j]).op
        == second[j - (base + first.len())] && fresh(g, j) by {
        assert(both[j - base] == second[j - base - first.len()]);
    }
}

/// Leaves planted in two rounds are the leaves of both, one after the other.
pub proof fn lemma_planted_chain<S: Scalar>(
    start: Seq<Node<S>>,
    middle: Seq<Node<S>>,
    end: Seq<Node<S>>,
    first: Seq<S>,
    second: Seq<S>,
)
    requires
        planted(start, middle, first),
        planted(middle, end, second),
    ensures
        planted(start, end, first + second),
{
    assert forall|i: int| 0 <= i < start.len() implies #[trigger] end[i] == start[i] by {
        assert(middle[i] == start[i]);
    }
    assert forall|j: int| start.len() <= j < end.len() implies {
        &&& (#[trigger] end[j]).op == Derivation::<S>::Const
        &&& end[j].value == (first + second)[j - start.len()]
        &&& is_int(0, end[j].gradient)
    } by {
        if j < middle.len() {
            assert(end[j] == middle[j]);
        }
    }
}

/// Positions that are placed are in range.
pub proof fn lemma_placed_in_range<S>(p: Seq<int>, g: Seq<Node<S>>)
    requires
        placed(p, g),
    ensures
        forall|k: int| 0 <= k < p.len() ==> 0 <= #[trigger] p[k] < g.len(),
{
    assert forall|k: int| 0 <= k < p.len() implies 0 <= #[trigger] p[k] < g.len() by {
        if 0 < k {
            assert(p[0] < p[k]);
        }
        if k < p.len() - 1 {
            assert(p[k] < p[p.len() - 1]);
        }
    }
}

/// Where two lists in a row are placed, each of them is, and they share no
/// position.
pub proof fn lemma_placed_split<S>(a: Seq<int>, b: Seq<int>, g: Seq<Node<S>>)
    requires
        placed(a + b, g),
    ensures
        placed(a, g),
        placed(b, g),
        forall|i: int, j: int|
            0 <= i < a.len() && 0 <= j < b.len() ==> #[trigger] a[i] != #[trigger] b[j],
{
    let both = a + b;
    lemma_placed_in_range(both, g);
    assert forall|i: int, j: int| 0 <= i < j < a.len() implies a[i] < a[j] by {
        assert(both[i] < both[j]);
    }
    assert forall|i: int, j: int| 0 <= i < j < b.len() implies b[i] < b[j] by {
        assert(both[a.len() + i] < both[a.len() + j]);
    }
    assert forall|i: int, j: int| 0 <= i < a.len() && 0 <= j < b.len() implies #[trigger] a[i]
        != #[trigger] b[j] by {
        assert(both[i] < both[a.len() + j]);
    }
    if a.len() > 0 {
        assert(a[0] == both[0]);
        assert(a.last() == both[a.len() - 1]);
    }
    if b.len() > 0 {
        assert(b[0] == both[a.len() as int]);
        assert(b.last() == both[both.len() - 1]);
    }
}

} // verus!

//! What a backward pass and an update step do to the gradients of a graph.
use crate::node::{acyclic, first_operand, precedes, second_operand, uses, Derivation, Node};
use crate::scalar::{
    is_difference, is_gated, is_int, is_power_slope, is_product, is_sigmoid_slope, is_sum,
    is_tanh_slope, Scalar,
};
use vstd::prelude::*;

verus! {

/// The two graphs hold the same nodes but for their gradients.
pub open spec fn same_but_gradients<S>(before: Seq<Node<S>>, after: Seq<Node<S>>) -> bool {
    &&& after.len() == before.len()
    &&& forall|i: int|
        0 <= i < before.len() ==> {
            &&& (#[trigger] after[i]).value == before[i].value
            &&& after[i].op == before[i].op
            &&& after[i].label == before[i].label
        }
}

/// The local derivative rule of the node at `m`, for one of its operands.
///
/// The node holds the gradient `upstream`. The operand in place `slot` (0 for
/// the first, 1 for the second) held the gradient `before`; `after` is what it
/// holds once the node has handed its share on.
pub open spec fn delivers<S: Scalar>(
    g: Seq<Node<S>>,
    m: int,
    slot: int,
    upstream: S,
    before: S,
    after: S,
) -> bool {
    match g[m].op {
        Derivation::Const => after == before,
        Derivation::Add(_, _) => is_sum(before, upstream, after),
        Derivation::Sub(_, _) => if slot == 0 {
            is_sum(before, upstream, after)
        } else {
            is_difference(before, upstream, after)
        },
        Derivation::Mul(a, b) => exists|share: S|
            is_product(
                g[if slot == 0 {
                    b
                } else {
                    a
                }].value,
                upstream,
                share,
            ) && is_sum(before, share, after),
        Derivation::Pow(a, e) => exists|slope: S, share: S|
            is_power_slope(g[a].value, e, slope) && is_product(slope, upstream, share) && is_sum(
                before,
                share,
                after,
            ),
        Derivation::Tanh(_) => exists|slope: S, share: S|
            is_tanh_slope(g[m].value, slope) && is_product(slope, upstream, share) && is_sum(
                before,
                share,
                after,
            ),
        Derivation::Sigmoid(_) => exists|slope: S, share: S|
            is_sigmoid_slope(g[m].value, slope) && is_product(slope, upstream, share) && is_sum(
                before,
                share,
                after,
            ),
        Derivation::ReLu(_) => exists|share: S|
            is_gated(g[m].value, upstream, share) && is_sum(before, share, after),
    }
}

/// What the node at `n` gets from the node at `m`, which holds the gradient
/// `upstream`: one share for each place in which `n` is an operand of `m`,
/// the first place first, and nothing where it is none.
pub open spec fn receives<S: Scalar>(
    g: Seq<Node<S>>,
    m: int,
    n: int,
    upstream: S,
    before: S,
    after: S,
) -> bool {
    let op = g[m].op;
    if first_operand(op) == Some(n) && second_operand(op) == Some(n) {
        exists|between: S|
            delivers(g, m, 0, upstream, before, between) && delivers(
                g,
                m,
                1,
                upstream,
                between,
                after,
            )
    } else if first_operand(op) == Some(n) {
        delivers(g, m, 0, upstream, before, after)
    } else if second_operand(op) == Some(n) {
        delivers(g, m, 1, upstream, before, after)
    } else {
        after == before
    }
}

/// The node at `m` has handed its gradient on to its operands, once.
pub open spec fn propagates<S: Scalar>(before: Seq<Node<S>>, after: Seq<Node<S>>, m: int) -> bool {
    &&& same_but_gradients(before, after)
    &&& forall|n: int|
        0 <= n < before.len() ==> receives(
            before,
            m,
            n,
            before[m].gradient,
            before[n].gradient,
            (#[trigger] after[n]).gradient,
        )
}

/// Whether the node at `root` depends on the node at `n`: `n` is `root`, or
/// an operand of a node on which `root` depends.
pub open spec fn reaches<S>(g: Seq<Node<S>>, root: int, n: int) -> bool
    decreases root - n,
{
    n == root || exists|m: int| n < m <= root && #[trigger] uses(g[m].op, n) && reaches(g, root, m)
}

/// What the node at `m` does to the gradient of the node at `n` in a backward
/// pass from `root`: it hands its own final gradient on if `root` depends on
/// it, and does nothing otherwise.
pub open spec fn handed<S: Scalar>(
    g: Seq<Node<S>>,
    end: Seq<Node<S>>,
    root: int,
    m: int,
    n: int,
    before: S,
    after: S,
) -> bool {
    if reaches(g, root, m) {
        receives(g, m, n, end[m].gradient, before, after)
    } else {
        after == before
    }
}

/// `v` is the gradient of the node at `n` once the nodes from `root` down to
/// `lo` have had their turn, the later node first. `g` is the graph before
/// the pass, `end` holds the final gradient of every node that had its turn.
pub open spec fn gathered<S: Scalar>(
    g: Seq<Node<S>>,
    end: Seq<Node<S>>,
    root: int,
    n: int,
    lo: int,
    v: S,
) -> bool
    decreases root + 1 - lo,
{
    if lo > root {
        v == g[n].gradient
    } else {
        exists|prev: S|
            gathered(g, end, root, n, lo + 1, prev) && #[trigger] handed(
                g,
                end,
                root,
                lo,
                n,
                prev,
                v,
            )
    }
}

/// The update step on one node: its value goes down by the learning rate
/// times its gradient, and its gradient is zero again.
pub open spec fn nudged<S: Scalar>(before: Node<S>, after: Node<S>, learning_rate: S) -> bool {
    &&& exists|step: S|
        is_product(learning_rate, before.gradient, step) && is_difference(
            before.value,
            step,
            after.value,
        )
    &&& is_int(0, after.gradient)
    &&& after.op == before.op
    &&& after.label == before.label
}

/// The update step on each of `targets`, and on no other node.
pub open spec fn nudged_all<S: Scalar>(
    before: Seq<Node<S>>,
    after: Seq<Node<S>>,
    targets: Seq<int>,
    learning_rate: S,
) -> bool {
    &&& after.len() == before.len()
    &&& forall|k: int|
        0 <= k < targets.len() ==> nudged(
            before[#[trigger] targets[k]],
            after[targets[k]],
            learning_rate,
        )
    &&& forall|i: int|
        0 <= i < before.len() && !targets.contains(i) ==> #[trigger] after[i] == before[i]
}

/// Nodes that do not use the node at `n` leave its gradient alone: what it
/// has gathered once the nodes down to `lo` had their turn, it had gathered
/// already when the nodes down to `hi` had theirs, if none of the nodes from
/// `lo` up to `hi` uses it.
pub proof fn lemma_gathered_skips<S: Scalar>(
    g: Seq<Node<S>>,
    end: Seq<Node<S>>,
    root: int,
    n: int,
    lo: int,
    hi: int,
    v: S,
)
    requires
        lo <= hi <= root + 1,
        forall|m: int| lo <= m < hi ==> !uses(#[trigger] g[m].op, n),
        gathered(g, end, root, n, lo, v),
    ensures
        gathered(g, end, root, n, hi, v),
    decreases hi - lo,
{
    if lo < hi {
        let prev = choose|prev: S|
            gathered(g, end, root, n, lo + 1, prev) && #[trigger] handed(
                g,
                end,
                root,
                lo,
                n,
                prev,
                v,
            );
        assert(!uses(g[lo].op, n));
        assert(v == prev);
        lemma_gathered_skips(g, end, root, n, lo + 1, hi, v);
    }
}

/// The chain rule along one path: a node that a single node on the way
/// uses, in a single place, gets that node's share and no other.
pub proof fn lemma_single_user<S: Scalar>(
    g: Seq<Node<S>>,
    end: Seq<Node<S>>,
    root: int,
    n: int,
    m: int,
)
    requires
        0 <= n < m <= root < g.len(),
        reaches(g, root, m),
        uses(g[m].op, n),
        !(first_operand(g[m].op) == Some(n) && second_operand(g[m].op) == Some(n)),
        forall|k: int| n < k <= root && k != m ==> !uses(#[trigger] g[k].op, n),
        gathered(g, end, root, n, n + 1, end[n].gradient),
    ensures
        delivers(
            g,
            m,
            if first_operand(g[m].op) == Some(n) {
                0
            } else {
                1
            },
            end[m].gradient,
            g[n].gradient,
            end[n].gradient,
        ),
{
    let v = end[n].gradient;
    lemma_gathered_skips(g, end, root, n, n + 1, m, v);
    let prev = choose|prev: S|
        gathered(g, end, root, n, m + 1, prev) && #[trigger] handed(g, end, root, m, n, prev, v);
    lemma_gathered_skips(g, end, root, n, m + 1, root + 1, prev);
    assert(prev == g[n].gradient);
    assert(receives(g, m, n, end[m].gradient, prev, v));
}

/// A node that is both operands of the sum from which a backward pass
/// starts, and that nothing else on the way uses, gets the sum's gradient
/// twice: once for each place in which it stands.
pub proof fn lemma_shared_operand<S: Scalar>(
    g: Seq<Node<S>>,
    end: Seq<Node<S>>,
    root: int,
    a: int,
)
    requires
        0 <= a < root < g.len(),
        g[root].op == Derivation::<S>::Add(a, a),
        forall|m: int| a < m < root ==> !uses(#[trigger] g[m].op, a),
        gathered(g, end, root, a, a + 1, end[a].gradient),
    ensures
        exists|between: S|
            is_sum(g[a].gradient, end[root].gradient, between) && is_sum(
                between,
                end[root].gradient,
                end[a].gradient,
            ),
{
    let v = end[a].gradient;
    lemma_gathered_skips(g, end, root, a, a + 1, root, v);
    let prev = choose|prev: S|
        gathered(g, end, root, a, root + 1, prev) && #[trigger] handed(
            g,
            end,
            root,
            root,
            a,
            prev,
            v,
        );
    assert(prev == g[a].gradient);
    assert(reaches(g, root, root));
    assert(receives(g, root, a, end[root].gradient, prev, v));
    let between = choose|between: S|
        delivers(g, root, 0, end[root].gradient, prev, between) && delivers(
            g,
            root,
            1,
            end[root].gradient,
            between,
            v,
        );
    assert(is_sum(g[a].gradient, end[root].gradient, between) && is_sum(
        between,
        end[root].gradient,
        end[a].gradient,
    ));
}

/// An update step on a node without a gradient leaves its value alone, for
/// numbers among which the learning rate times zero is zero, and a number
/// less zero is that number.
pub proof fn lemma_idle_update<S: Scalar>(before: Node<S>, after: Node<S>, learning_rate: S)
    requires
        nudged(before, after, learning_rate),
        is_int(0, before.gradient),
        forall|zero: S, step: S|
            is_int(0, zero) && #[trigger] is_product(learning_rate, zero, step) ==> is_int(
                0,
                step,
            ),
        forall|zero: S, v: S, r: S|
            is_int(0, zero) && #[trigger] is_difference(v, zero, r) ==> r == v,
    ensures
        after.value == before.value,
        is_int(0, after.gradient),
{
    let step = choose|step: S|
        is_product(learning_rate, before.gradient, step) && is_difference(
            before.value,
            step,
            after.value,
        );
    assert(is_int(0, step));
}

/// Updating two lists of nodes that share none, one list after the other,
/// is updating the nodes of both.
pub proof fn lemma_nudged_chain<S: Scalar>(
    start: Seq<Node<S>>,
    middle: Seq<Node<S>>,
    end: Seq<Node<S>>,
    first: Seq<int>,
    second: Seq<int>,
    learning_rate: S,
)
    requires
        nudged_all(start, middle, first, learning_rate),
        nudged_all(middle, end, second, learning_rate),
        forall|i: int| 0 <= i < first.len() ==> 0 <= #[trigger] first[i] < start.len(),
        forall|i: int| 0 <= i < second.len() ==> 0 <= #[trigger] second[i] < start.len(),
        forall|i: int, j: int|
            0 <= i < first.len() && 0 <= j < second.len() ==> #[trigger] first[i]
                != #[trigger] second[j],
    ensures
        nudged_all(start, end, first + second, learning_rate),
{
    let both = first + second;
    assert forall|k: int| 0 <= k < both.len() implies nudged(
        start[#[trigger] both[k]],
        end[both[k]],
        learning_rate,
    ) by {
        if k < first.len() {
            let t = first[k];
            assert(both[k] == t);
            if second.contains(t) {
                let j = choose|j: int| 0 <= j < second.len() && second[j] == t;
                assert(first[k] != second[j]);
            }
            assert(end[t] == middle[t]);
        } else {
            let t = second[k - first.len()];
            assert(both[k] == t);
            if first.contains(t) {
                let i = choose|i: int| 0 <= i < first.len() && first[i] == t;
                assert(first[i] != second[k - first.len()]);
            }
            assert(middle[t] == start[t]);
        }
    }
    assert forall|i: int| 0 <= i < start.len() && !both.contains(i) implies #[trigger] end[i]
        == start[i] by {
        if first.contains(i) {
            let k = choose|k: int| 0 <= k < first.len() && first[k] == i;
            assert(both[k] == i);
        }
        if second.contains(i) {
            let k = choose|k: int| 0 <= k < second.len() && second[k] == i;
            assert(both[k + first.len()] == i);
        }
        assert(middle[i] == start[i]);
    }
}

/// Whether the node at `n` is `root` or an operand of a node from `lo` on
/// on which `root` depends.
pub(crate) open spec fn pending<S>(g: Seq<Node<S>>, root: int, n: int, lo: int) -> bool {
    n == root || exists|m: int|
        lo <= m <= root && #[trigger] uses(g[m].op, n) && reaches(g, root, m)
}

/// The later of `k` and the position behind `n`.
pub(crate) open spec fn turn(k: int, n: int) -> int {
    if k > n + 1 {
        k
    } else {
        n + 1
    }
}

/// A node's dependence on `root` is settled once every node behind it had
/// its turn.
pub(crate) proof fn lemma_pending_settles<S>(g: Seq<Node<S>>, root: int, n: int)
    ensures
        pending(g, root, n, n + 1) == reaches(g, root, n),
{
    if pending(g, root, n, n + 1) && n != root {
        let m = choose|m: int|
            n + 1 <= m <= root && #[trigger] uses(g[m].op, n) && reaches(g, root, m);
        assert(n < m <= root && uses(g[m].op, n) && reaches(g, root, m));
    }
    if reaches(g, root, n) && n != root {
        let m = choose|m: int| n < m <= root && #[trigger] uses(g[m].op, n) && reaches(g, root, m);
        assert(n + 1 <= m <= root && uses(g[m].op, n) && reaches(g, root, m));
    }
}

/// One more node had its turn: its operands are wanted if it is.
pub(crate) proof fn lemma_pending_step<S>(g: Seq<Node<S>>, root: int, n: int, lo: int)
    requires
        lo <= root,
    ensures
        pending(g, root, n, lo) == (pending(g, root, n, lo + 1) || (uses(g[lo].op, n) && reaches(
            g,
            root,
            lo,
        ))),
{
    if pending(g, root, n, lo) && n != root {
        let m = choose|m: int|
            lo <= m <= root && #[trigger] uses(g[m].op, n) && reaches(g, root, m);
        if m != lo {
            assert(lo + 1 <= m <= root && uses(g[m].op, n) && reaches(g, root, m));
        }
    }
    if pending(g, root, n, lo + 1) && n != root {
        let m = choose|m: int|
            lo + 1 <= m <= root && #[trigger] uses(g[m].op, n) && reaches(g, root, m);
        assert(lo <= m <= root && uses(g[m].op, n) && reaches(g, root, m));
    }
    if uses(g[lo].op, n) && reaches(g, root, lo) {
        assert(lo <= lo <= root && uses(g[lo].op, n) && reaches(g, root, lo));
    }
}

/// What a node has gathered depends on the final gradients of the nodes that
/// had their turn, and on no other.
pub(crate) proof fn lemma_gathered_frame<S: Scalar>(
    g: Seq<Node<S>>,
    e1: Seq<Node<S>>,
    e2: Seq<Node<S>>,
    root: int,
    n: int,
    lo: int,
    v: S,
)
    requires
        0 <= lo,
        root < e1.len() == e2.len(),
        forall|m: int| lo <= m <= root ==> (#[trigger] e1[m]).gradient == e2[m].gradient,
        gathered(g, e1, root, n, lo, v),
    ensures
        gathered(g, e2, root, n, lo, v),
    decreases root + 1 - lo,
{
    if lo <= root {
        let prev = choose|prev: S|
            gathered(g, e1, root, n, lo + 1, prev) && #[trigger] handed(
                g,
                e1,
                root,
                lo,
                n,
                prev,
                v,
            );
        lemma_gathered_frame(g, e1, e2, root, n, lo + 1, prev);
        assert(e1[lo].gradient == e2[lo].gradient);
        assert(gathered(g, e2, root, n, lo + 1, prev) && handed(g, e2, root, lo, n, prev, v));
    }
}

/// The derivative rules read values and operations, never gradients.
pub(crate) proof fn lemma_receives_structure<S: Scalar>(
    g1: Seq<Node<S>>,
    g2: Seq<Node<S>>,
    m: int,
    n: int,
    upstream: S,
    before: S,
    after: S,
)
    requires
        acyclic(g1),
        same_but_gradients(g1, g2),
        0 <= m < g1.len(),
    ensures
        receives(g1, m, n, upstream, before, after) == receives(g2, m, n, upstream, before, after),
{
    assert(precedes(g1[m].op, m));
    assert(g2[m].op == g1[m].op);
    assert(g2[m].value == g1[m].value);
    assert forall|slot: int, b: S, a: S|
        delivers(g1, m, slot, upstream, b, a) == delivers(g2, m, slot, upstream, b, a) by {
        match g1[m].op {
            Derivation::Mul(x, y) => {
                assert(g2[x].value == g1[x].value);
                assert(g2[y].value == g1[y].value);
            },
            Derivation::Pow(x, _) => {
                assert(g2[x].value == g1[x].value);
            },
            _ => {},
        }
    }
}

} // verus!

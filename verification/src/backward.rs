//! The backward traversal and the local derivative rules.

use crate::arith::{answers, serves, Arith};
use crate::graph::{well_ordered, Cell, Graph, Node, Op};
use vstd::prelude::*;

verus! {

/// `post` is `pre` after `amount` was added to the gradient of cell `target`:
/// the new gradient is an answer that `law` admits to the sum of the old gradient
/// and `amount`, in this order, and nothing else differs.
pub open spec fn bumped<S>(
    law: spec_fn(Arith<S>, S) -> bool,
    pre: Seq<Cell<S>>,
    target: int,
    amount: S,
    post: Seq<Cell<S>>,
) -> bool {
    &&& 0 <= target < pre.len()
    &&& post == pre.update(
        target,
        Cell { value: pre[target].value, grad: post[target].grad, op: pre[target].op },
    )
    &&& law(Arith::Sum(pre[target].grad, amount), post[target].grad)
}

/// `post` is `pre` after the local derivative rule of cell `n` was applied
/// once. With `g` the gradient of `n` and `v` its value:
/// - a leaf passes nothing on;
/// - a sum adds `g` to its first operand's gradient, then to its second's;
/// - a product adds `second.value * g` to its first operand's gradient, then
///   `first.value * g` to its second's;
/// - a hyperbolic tangent adds `(one - v * v) * g` to its operand's gradient.
/// The additions happen one after the other, so an operand that occurs twice
/// receives both.
pub open spec fn rule_applied<S>(
    law: spec_fn(Arith<S>, S) -> bool,
    one: S,
    pre: Seq<Cell<S>>,
    n: int,
    post: Seq<Cell<S>>,
) -> bool {
    let g = pre[n].grad;
    let v = pre[n].value;
    match pre[n].op {
        Op::Leaf => post == pre,
        Op::Add(a, b) => exists|mid: Seq<Cell<S>>|
            {
                &&& #[trigger] bumped(law, pre, a.index(), g, mid)
                &&& bumped(law, mid, b.index(), g, post)
            },
        Op::Multiply(a, b) => exists|to_a: S, mid: Seq<Cell<S>>, to_b: S|
            {
                &&& law(Arith::Product(pre[b.index()].value, g), to_a)
                &&& #[trigger] bumped(law, pre, a.index(), to_a, mid)
                &&& law(Arith::Product(pre[a.index()].value, g), to_b)
                &&& #[trigger] bumped(law, mid, b.index(), to_b, post)
            },
        Op::HyperbolicTangent(a) => exists|square: S, slope: S, to_a: S|
            {
                &&& law(Arith::Product(v, v), square)
                &&& #[trigger] law(Arith::Difference(one, square), slope)
                &&& law(Arith::Product(slope, g), to_a)
                &&& #[trigger] bumped(law, pre, a.index(), to_a, post)
            },
    }
}

/// The positions of the operands of `op`.
pub open spec fn operands(op: Op) -> Set<int> {
    match op {
        Op::Leaf => Set::empty(),
        Op::Add(a, b) => set![a.index(), b.index()],
        Op::Multiply(a, b) => set![a.index(), b.index()],
        Op::HyperbolicTangent(a) => set![a.index()],
    }
}

/// The cells that a pass from cell `n` knows to be reached when every
/// position above `i` has been dealt with: `n` itself, and the operands of
/// every reached cell above `i`.
pub open spec fn reached_above<S>(cells: Seq<Cell<S>>, n: int, i: int) -> Set<int>
    decreases n - i,
{
    if i >= n {
        set![n]
    } else {
        let above = reached_above(cells, n, i + 1);
        if above.contains(i + 1) {
            above.union(operands(cells[i + 1].op))
        } else {
            above
        }
    }
}

/// Cell `i` is reached from cell `n`: it is `n`, or an operand of a cell that
/// is reached from `n`.
pub open spec fn reached<S>(cells: Seq<Cell<S>>, n: int, i: int) -> bool {
    reached_above(cells, n, i).contains(i)
}

/// `post` is `pre` after the local rule of every cell that is reached from
/// `n` and stands at position `i` or above was applied once, the cells taken
/// in descending position.
pub open spec fn swept<S>(
    law: spec_fn(Arith<S>, S) -> bool,
    one: S,
    pre: Seq<Cell<S>>,
    n: int,
    i: int,
    post: Seq<Cell<S>>,
) -> bool
    decreases n - i + 1,
{
    if i > n {
        post == pre
    } else {
        exists|mid: Seq<Cell<S>>|
            {
                &&& #[trigger] mid.len() == pre.len()
                &&& swept(law, one, pre, n, i + 1, mid)
                &&& if reached(pre, n, i) {
                    rule_applied(law, one, mid, i, post)
                } else {
                    post == mid
                }
            }
    }
}

/// `post` is `pre` after a backward pass from cell `n`: every cell that is
/// reached from `n` has its local rule applied exactly once, however many
/// cells share it, and the cells are taken in descending position. Operands
/// stand before their cell, so the gradient of a cell is complete, the sum of
/// what all the cells that use it passed on, when its own rule is applied. A
/// traversal that descended into an operand once for each use would count
/// what lies below a shared cell several times; this one does not.
pub open spec fn backpropagated<S>(
    law: spec_fn(Arith<S>, S) -> bool,
    one: S,
    pre: Seq<Cell<S>>,
    n: int,
    post: Seq<Cell<S>>,
) -> bool {
    &&& 0 <= n < pre.len()
    &&& swept(law, one, pre, n, 0, post)
}

/// `post` differs from `pre` in gradients only, and only in those of cells
/// before position `n`.
pub open spec fn grads_differ_below<S>(pre: Seq<Cell<S>>, post: Seq<Cell<S>>, n: int) -> bool {
    &&& post.len() == pre.len()
    &&& forall|i: int|
        0 <= i < pre.len() ==> (#[trigger] post[i]).value == pre[i].value && post[i].op
            == pre[i].op
    &&& forall|i: int| n <= i < pre.len() ==> #[trigger] post[i] == pre[i]
}

/// A local rule changes gradients only, and only those of operands.
pub proof fn lemma_rule_frame<S>(
    law: spec_fn(Arith<S>, S) -> bool,
    one: S,
    pre: Seq<Cell<S>>,
    n: int,
    post: Seq<Cell<S>>,
)
    requires
        0 <= n < pre.len(),
        pre[n].op.below(n),
        rule_applied(law, one, pre, n, post),
    ensures
        grads_differ_below(pre, post, n),
{
}

/// A sweep changes gradients only, and only those of cells before `n`.
pub proof fn lemma_swept_frame<S>(
    law: spec_fn(Arith<S>, S) -> bool,
    one: S,
    pre: Seq<Cell<S>>,
    n: int,
    i: int,
    post: Seq<Cell<S>>,
)
    requires
        well_ordered(pre),
        0 <= i,
        0 <= n < pre.len(),
        swept(law, one, pre, n, i, post),
    ensures
        grads_differ_below(pre, post, n),
    decreases n - i + 1,
{
    if i <= n {
        let mid = choose|mid: Seq<Cell<S>>|
            {
                &&& #[trigger] mid.len() == pre.len()
                &&& swept(law, one, pre, n, i + 1, mid)
                &&& if reached(pre, n, i) {
                    rule_applied(law, one, mid, i, post)
                } else {
                    post == mid
                }
            };
        lemma_swept_frame(law, one, pre, n, i + 1, mid);
        if reached(pre, n, i) {
            assert(pre[i].op.below(i));
            assert(mid[i].op == pre[i].op);
            lemma_rule_frame(law, one, mid, i, post);
        }
    }
}

/// A backward pass changes gradients only, and only those of cells before
/// the one it starts from: values, operations and the number of cells stay,
/// and so does the gradient that the pass was seeded with.
pub proof fn lemma_backward_frame<S>(
    law: spec_fn(Arith<S>, S) -> bool,
    one: S,
    pre: Seq<Cell<S>>,
    n: int,
    post: Seq<Cell<S>>,
)
    requires
        well_ordered(pre),
        backpropagated(law, one, pre, n, post),
    ensures
        grads_differ_below(pre, post, n),
{
    lemma_swept_frame(law, one, pre, n, 0, post);
}

/// Adds `amount` to the gradient of `target`.
fn accumulate<S: Copy, K: Fn(Arith<S>) -> S>(target: Node, amount: S, graph: &mut Graph<S>, k: &K)
    requires
        old(graph).wf(),
        old(graph).has(target),
        serves(k, old(graph).units()),
    ensures
        final(graph).wf(),
        final(graph).units() == old(graph).units(),
        bumped(answers(k), old(graph)@, target.index(), amount, final(graph)@),
{
    let g = k(Arith::Sum(target.grad(graph), amount));
    target.set_grad(g, graph);
}

/// Applies the local derivative rule of `n` once.
fn apply_rule<S: Copy, K: Fn(Arith<S>) -> S>(n: Node, graph: &mut Graph<S>, k: &K)
    requires
        old(graph).wf(),
        old(graph).has(n),
        serves(k, old(graph).units()),
    ensures
        final(graph).wf(),
        final(graph).units() == old(graph).units(),
        rule_applied(answers(k), old(graph).units().one, old(graph)@, n.index(), final(graph)@),
        final(graph)@.len() == old(graph)@.len(),
        forall|i: int|
            0 <= i < old(graph)@.len() ==> (#[trigger] final(graph)@[i]).op == old(graph)@[i].op,
{
    let g = n.grad(graph);
    match n.op(graph) {
        Op::Leaf => {},
        Op::Add(a, b) => {
            accumulate(a, g, graph, k);
            let ghost mid = graph@;
            accumulate(b, g, graph, k);
            assert(bumped(answers(k), old(graph)@, a.index(), g, mid));
        },
        Op::Multiply(a, b) => {
            let to_a = k(Arith::Product(b.val(graph), g));
            let to_b = k(Arith::Product(a.val(graph), g));
            accumulate(a, to_a, graph, k);
            let ghost mid = graph@;
            accumulate(b, to_b, graph, k);
            assert(bumped(answers(k), old(graph)@, a.index(), to_a, mid));
            assert(bumped(answers(k), mid, b.index(), to_b, graph@));
        },
        Op::HyperbolicTangent(a) => {
            let v = n.val(graph);
            let square = k(Arith::Product(v, v));
            let slope = k(Arith::Difference(graph.one(), square));
            let to_a = k(Arith::Product(slope, g));
            accumulate(a, to_a, graph, k);
            assert(answers(k)(Arith::Difference(old(graph).units().one, square), slope));
            assert(bumped(answers(k), old(graph)@, a.index(), to_a, graph@));
        },
    }
}

impl Node {
    /// Runs the backward pass from this node, whose gradient the caller has
    /// seeded: see [`backpropagated`]. Every cell that the node depends on is
    /// visited once, after all the cells that use it. Only gradients change,
    /// and only those of cells before this one.
    pub fn backward_pass<S: Copy, K: Fn(Arith<S>) -> S>(&self, graph: &mut Graph<S>, k: &K)
        requires
            old(graph).wf(),
            old(graph).has(*self),
            serves(k, old(graph).units()),
        ensures
            final(graph).wf(),
            final(graph).units() == old(graph).units(),
            backpropagated(
                answers(k),
                old(graph).units().one,
                old(graph)@,
                self.index(),
                final(graph)@,
            ),
            grads_differ_below(old(graph)@, final(graph)@, self.index()),
    {
        let n = self.0;
        let ghost one = graph.units().one;
        let ghost pre = graph@;
        let mut marks: Vec<bool> = Vec::new();
        while marks.len() < n
            invariant
                n == self.index(),
                pre == old(graph)@,
                graph@ == pre,
                graph.wf(),
                graph.units() == old(graph).units(),
                old(graph).has(*self),
                serves(k, graph.units()),
                marks@.len() <= n,
                forall|p: int| 0 <= p < marks@.len() ==> !marks@[p],
            decreases n - marks@.len(),
        {
            marks.push(false);
        }
        marks.push(true);
        let mut i: usize = marks.len();
        while i > 0
            invariant
                n == self.index(),
                n < pre.len(),
                pre == old(graph)@,
                one == old(graph).units().one,
                well_ordered(pre),
                graph.wf(),
                graph.units() == old(graph).units(),
                serves(k, graph.units()),
                i <= n + 1,
                marks@.len() == n + 1,
                forall|p: int| 0 <= p <= n ==> marks@[p] == reached_above(pre, n as int, i - 1).contains(p),
                swept(answers(k), one, pre, n as int, i as int, graph@),
                grads_differ_below(pre, graph@, n as int),
            decreases i,
        {
            i = i - 1;
            let ghost before = graph@;
            let ghost above = reached_above(pre, n as int, i as int);
            assert(pre[i as int].op.below(i as int));
            assert(before[i as int].op == pre[i as int].op);
            if marks[i] {
                let node = Node(i);
                apply_rule(node, graph, k);
                match node.op(graph) {
                    Op::Leaf => {},
                    Op::Add(a, b) => {
                        marks.set(a.0, true);
                        marks.set(b.0, true);
                    },
                    Op::Multiply(a, b) => {
                        marks.set(a.0, true);
                        marks.set(b.0, true);
                    },
                    Op::HyperbolicTangent(a) => {
                        marks.set(a.0, true);
                    },
                }
                proof {
                    lemma_rule_frame(answers(k), one, before, i as int, graph@);
                }
            }
            proof {
                assert(before.len() == pre.len());
                assert(reached(pre, n as int, i as int) == above.contains(i as int));
                assert forall|p: int| 0 <= p <= n implies marks@[p] == reached_above(
                    pre,
                    n as int,
                    i - 1,
                ).contains(p) by {
                    assert(reached_above(pre, n as int, i - 1) == if above.contains(i as int) {
                        above.union(operands(pre[i as int].op))
                    } else {
                        above
                    });
                }
            }
        }
    }
}

} // verus!

//! A neuron: trainable weights and a bias, and the formula that combines them
//! with an input vector.

use crate::arith::{answers, serves, Arith, Units};
use crate::graph::{
    computed, extends, lemma_computed_extends, well_ordered, Cell, Graph, Node, Op,
};
use vstd::prelude::*;

verus! {

/// A forward pass was handed `found` inputs where `expected` were due.
#[derive(Clone, Copy, Debug, PartialEq, Eq, Structural)]
pub struct ShapeMismatch {
    pub expected: usize,
    pub found: usize,
}

/// The trainable parameters of one neuron: handles of leaves of the graph,
/// the weights in order and the bias. A neuron made by [`Neuron::with_values`]
/// or [`Neuron::new`] has them side by side in the graph; one put together
/// from handles may have them anywhere, as long as they are distinct leaves.
#[derive(Debug, Clone)]
pub struct Neuron {
    pub w: Vec<Node>,
    pub b: Node,
}

/// Every cell from `lo` up to, not including, `hi` is a leaf.
pub open spec fn leaves<S>(cells: Seq<Cell<S>>, lo: int, hi: int) -> bool {
    forall|i: int| lo <= i < hi ==> (#[trigger] cells[i]).op == Op::Leaf
}

/// The values that the parameters of one neuron start from.
#[derive(Debug)]
pub struct Parameters<S> {
    pub weights: Vec<S>,
    pub bias: S,
}

/// A new leaf with value `value`: its gradient is `zero`.
pub open spec fn fresh<S>(value: S, zero: S) -> Cell<S> {
    Cell { value, grad: zero, op: Op::Leaf }
}

/// The size that `n` stands for: a negative number counts as zero.
pub open spec fn size_of(n: i64) -> int {
    if n > 0 {
        n as int
    } else {
        0
    }
}

/// Every element of `values` is a value that `draw` may return.
pub open spec fn all_drawn<S, D: Fn() -> S>(draw: &D, values: Seq<S>) -> bool {
    forall|j: int| 0 <= j < values.len() ==> draw.ensures((), #[trigger] values[j])
}

/// `post` is `pre` after one step of gradient descent: the gradient is
/// clamped to the range from `units.minus_one` to `units.one`, multiplied by
/// `rate` (`rate` first), and the product is subtracted from the value.
/// Gradient and operation stay.
pub open spec fn stepped<S>(
    law: spec_fn(Arith<S>, S) -> bool,
    units: Units<S>,
    rate: S,
    pre: Cell<S>,
    post: Cell<S>,
) -> bool {
    &&& post.grad == pre.grad
    &&& post.op == pre.op
    &&& exists|clipped: S, delta: S|
        {
            &&& #[trigger] law(Arith::Clamp(pre.grad, units.minus_one, units.one), clipped)
            &&& #[trigger] law(Arith::Product(rate, clipped), delta)
            &&& law(Arith::Difference(pre.value, delta), post.value)
        }
}

/// The positions from `lo` up to, not including, `hi`.
pub open spec fn span(lo: int, hi: int) -> Set<int> {
    Set::new(|t: int| lo <= t < hi)
}

/// `post` is `pre` after one step of gradient descent on every cell whose
/// position is in `owned`; the other cells are unchanged.
pub open spec fn updated_in<S>(
    law: spec_fn(Arith<S>, S) -> bool,
    units: Units<S>,
    rate: S,
    owned: Set<int>,
    pre: Seq<Cell<S>>,
    post: Seq<Cell<S>>,
) -> bool {
    &&& post.len() == pre.len()
    &&& forall|i: int|
        0 <= i < pre.len() ==> if owned.contains(i) {
            stepped(law, units, rate, pre[i], #[trigger] post[i])
        } else {
            post[i] == pre[i]
        }
}

/// `post` is `pre` after one step of gradient descent on every cell from `lo`
/// up to, not including, `hi`; the other cells are unchanged.
pub open spec fn updated<S>(
    law: spec_fn(Arith<S>, S) -> bool,
    units: Units<S>,
    rate: S,
    lo: int,
    hi: int,
    pre: Seq<Cell<S>>,
    post: Seq<Cell<S>>,
) -> bool {
    updated_in(law, units, rate, span(lo, hi), pre, post)
}

/// `cells` with the gradient of every cell whose position is in `owned` set
/// to `zero`.
pub open spec fn zeroed_in<S>(zero: S, owned: Set<int>, cells: Seq<Cell<S>>) -> Seq<Cell<S>> {
    Seq::new(
        cells.len(),
        |i: int|
            if owned.contains(i) {
                Cell { value: cells[i].value, grad: zero, op: cells[i].op }
            } else {
                cells[i]
            },
    )
}

/// `cells` with the gradient of every cell from `lo` up to, not including,
/// `hi` set to `zero`.
pub open spec fn zeroed<S>(zero: S, lo: int, hi: int, cells: Seq<Cell<S>>) -> Seq<Cell<S>> {
    zeroed_in(zero, span(lo, hi), cells)
}

/// Resetting the gradients of some cells twice in a row gives what resetting
/// them once gives, and after it every one of these gradients is `zero` while
/// values and operations are as before.
pub proof fn lemma_zeroed_twice<S>(zero: S, owned: Set<int>, cells: Seq<Cell<S>>)
    ensures
        zeroed_in(zero, owned, zeroed_in(zero, owned, cells)) == zeroed_in(zero, owned, cells),
        zeroed_in(zero, owned, cells).len() == cells.len(),
        forall|i: int|
            0 <= i < cells.len() && owned.contains(i) ==> (#[trigger] zeroed_in(
                zero,
                owned,
                cells,
            )[i]).grad == zero,
        forall|i: int|
            0 <= i < cells.len() ==> {
                &&& (#[trigger] zeroed_in(zero, owned, cells)[i]).value == cells[i].value
                &&& zeroed_in(zero, owned, cells)[i].op == cells[i].op
            },
{
    assert(zeroed_in(zero, owned, zeroed_in(zero, owned, cells)) =~= zeroed_in(
        zero,
        owned,
        cells,
    ));
}

/// Position of the product that a forward pass appended at `base` for input
/// `i`.
pub open spec fn product_at(base: int, i: int) -> int {
    base + 2 * i
}

/// Position of the sum that a forward pass appended at `base` for input `i`.
pub open spec fn sum_at(base: int, i: int) -> int {
    base + 2 * i + 1
}

impl Neuron {
    /// Position of the first parameter.
    pub open spec fn first(&self) -> int {
        self.b.index() - self.w@.len()
    }

    /// Position after the last parameter, the bias.
    pub open spec fn end(&self) -> int {
        self.b.index() + 1
    }

    /// The parameters stand side by side, weights first.
    pub open spec fn laid_out(&self) -> bool {
        &&& self.first() >= 0
        &&& forall|j: int|
            0 <= j < self.w@.len() ==> (#[trigger] self.w@[j]).index() == self.first() + j
    }

    /// Position `t` is that of one of the first `j` weights.
    pub open spec fn owns_before(&self, j: int, t: int) -> bool {
        exists|m: int| 0 <= m < j && m < self.w@.len() && (#[trigger] self.w@[m]).index() == t
    }

    /// The positions of the first `j` weights.
    pub open spec fn weights_before(&self, j: int) -> Set<int> {
        Set::new(|t: int| self.owns_before(j, t))
    }

    /// The positions of the parameters: of every weight and of the bias.
    pub open spec fn params(&self) -> Set<int> {
        self.weights_before(self.w@.len() as int).insert(self.b.index())
    }

    /// The neuron's invariant with respect to the cells of its graph: the
    /// parameters are leaves of the graph, and no two of them are the same
    /// cell.
    pub open spec fn wf<S>(&self, cells: Seq<Cell<S>>) -> bool {
        &&& self.b.index() < cells.len()
        &&& cells[self.b.index()].op == Op::Leaf
        &&& forall|j: int|
            0 <= j < self.w@.len() ==> {
                &&& (#[trigger] self.w@[j]).index() < cells.len()
                &&& cells[self.w@[j].index()].op == Op::Leaf
                &&& self.w@[j].index() != self.b.index()
            }
        &&& forall|j: int, m: int|
            0 <= j < m < self.w@.len() ==> (#[trigger] self.w@[j]).index() != (
            #[trigger] self.w@[m]).index()
    }

    /// The parameters are leaves of the graph that stand side by side,
    /// weights first: what a neuron made by [`Neuron::with_values`] is.
    pub open spec fn packed<S>(&self, cells: Seq<Cell<S>>) -> bool {
        &&& self.laid_out()
        &&& self.end() <= cells.len()
        &&& leaves(cells, self.first(), self.end())
    }

    /// A packed neuron is well formed, and its parameters are the cells from
    /// `first()` up to `end()`.
    pub proof fn lemma_packed<S>(&self, cells: Seq<Cell<S>>)
        requires
            self.packed(cells),
        ensures
            self.wf(cells),
            self.params() == span(self.first(), self.end()),
    {
        assert forall|j: int| 0 <= j < self.w@.len() implies {
            &&& (#[trigger] self.w@[j]).index() < cells.len()
            &&& cells[self.w@[j].index()].op == Op::Leaf
            &&& self.w@[j].index() != self.b.index()
        } by {
            assert(self.w@[j].index() == self.first() + j);
        }
        assert forall|t: int| self.params().contains(t) <==> span(
            self.first(),
            self.end(),
        ).contains(t) by {
            if self.first() <= t < self.b.index() {
                assert(self.w@[t - self.first()].index() == t);
            }
        }
        assert(self.params() =~= span(self.first(), self.end()));
    }

    /// In `cells` the parameters are new leaves that hold the given values:
    /// weight `j` holds `weights[j]`, and the bias holds `bias`.
    pub open spec fn holds<S>(
        &self,
        weights: Seq<S>,
        bias: S,
        zero: S,
        cells: Seq<Cell<S>>,
    ) -> bool {
        &&& self.w@.len() == weights.len()
        &&& forall|j: int|
            0 <= j < weights.len() ==> cells[self.w@[j].index()] == fresh(
                #[trigger] weights[j],
                zero,
            )
        &&& cells[self.b.index()] == fresh(bias, zero)
    }

    /// In `cells` every parameter is a new leaf, with gradient `zero`, whose
    /// value is one that `draw` may return.
    pub open spec fn drawn<S, D: Fn() -> S>(&self, draw: &D, zero: S, cells: Seq<Cell<S>>) -> bool {
        exists|weights: Seq<S>, bias: S|
            {
                &&& #[trigger] self.holds(weights, bias, zero, cells)
                &&& all_drawn(draw, weights)
                &&& draw.ensures((), bias)
            }
    }

    /// A well-formed neuron stays so when cells are appended to the graph.
    pub proof fn lemma_wf_extends<S>(&self, pre: Seq<Cell<S>>, post: Seq<Cell<S>>)
        requires
            self.wf(pre),
            extends(pre, post),
        ensures
            self.wf(post),
    {
        assert(post[self.b.index()] == pre[self.b.index()]);
        assert forall|j: int| 0 <= j < self.w@.len() implies {
            &&& (#[trigger] self.w@[j]).index() < post.len()
            &&& post[self.w@[j].index()].op == Op::Leaf
        } by {
            assert(post[self.w@[j].index()] == pre[self.w@[j].index()]);
        }
    }

    /// A well-formed neuron stays so when the cells keep their number and
    /// their operations.
    pub proof fn lemma_wf_kept<S>(&self, pre: Seq<Cell<S>>, post: Seq<Cell<S>>)
        requires
            self.wf(pre),
            post.len() == pre.len(),
            forall|i: int| 0 <= i < pre.len() ==> (#[trigger] post[i]).op == pre[i].op,
        ensures
            self.wf(post),
    {
        assert(post[self.b.index()].op == pre[self.b.index()].op);
        assert forall|j: int| 0 <= j < self.w@.len() implies {
            &&& (#[trigger] self.w@[j]).index() < post.len()
            &&& post[self.w@[j].index()].op == Op::Leaf
        } by {
            assert(post[self.w@[j].index()].op == pre[self.w@[j].index()].op);
        }
    }

    /// What a neuron holds stays when cells are appended to the graph.
    pub proof fn lemma_holds_extends<S>(
        &self,
        weights: Seq<S>,
        bias: S,
        zero: S,
        pre: Seq<Cell<S>>,
        post: Seq<Cell<S>>,
    )
        requires
            self.packed(pre),
            extends(pre, post),
            self.holds(weights, bias, zero, pre),
        ensures
            self.packed(post),
            self.holds(weights, bias, zero, post),
    {
        assert forall|t: int| self.first() <= t < self.end() implies (#[trigger] post[t]).op
            == Op::Leaf by {
            assert(pre[t].op == Op::Leaf);
        }
        assert forall|j: int| 0 <= j < weights.len() implies post[self.w@[j].index()] == fresh(
            #[trigger] weights[j],
            zero,
        ) by {
            assert(self.w@[j].index() == self.first() + j);
            assert(post[self.w@[j].index()] == pre[self.w@[j].index()]);
        }
        assert(post[self.b.index()] == pre[self.b.index()]);
    }

    /// There is no weight before the first.
    pub proof fn lemma_weights_before_zero(&self)
        ensures
            self.weights_before(0) == Set::<int>::empty(),
    {
        assert(self.weights_before(0) =~= Set::<int>::empty());
    }

    /// The first `j + 1` weights are the first `j` and weight `j`.
    pub proof fn lemma_weights_before_next(&self, j: int)
        requires
            0 <= j < self.w@.len(),
        ensures
            self.weights_before(j + 1) == self.weights_before(j).insert(self.w@[j].index()),
    {
        assert forall|t: int| self.weights_before(j + 1).contains(t) <==> self.weights_before(
            j,
        ).insert(self.w@[j].index()).contains(t) by {
            if self.owns_before(j + 1, t) {
                let m = choose|m: int|
                    0 <= m < j + 1 && m < self.w@.len() && (#[trigger] self.w@[m]).index() == t;
                if m < j {
                    assert(self.owns_before(j, t));
                }
            }
            if self.owns_before(j, t) {
                let m = choose|m: int|
                    0 <= m < j && m < self.w@.len() && (#[trigger] self.w@[m]).index() == t;
                assert(0 <= m < j + 1 && self.w@[m].index() == t);
            }
            if t == self.w@[j].index() {
                assert(0 <= j < j + 1 && self.w@[j].index() == t);
            }
        }
        assert(self.weights_before(j + 1) =~= self.weights_before(j).insert(self.w@[j].index()));
    }

    /// The activation that a forward pass appending at `base` has reached
    /// before it takes input `i`: the bias for the first input, then the sum
    /// appended for the input before.
    pub open spec fn activation(&self, base: int, i: int) -> Node {
        if i == 0 {
            self.b
        } else {
            Node::at(sum_at(base, i - 1))
        }
    }

    /// From position `base` on, `cells` holds a forward pass of this neuron on
    /// the inputs `x`: with `n` the number of weights, for each input `i` in
    /// turn the product `w[i] * x[i]` and the sum of the activation so far and
    /// that product, then the hyperbolic tangent of the last activation, at
    /// position `base + 2 * n`. Each of these cells has gradient `zero` and a
    /// value that `law` admits for its operation.
    pub open spec fn forwarded<S>(
        &self,
        law: spec_fn(Arith<S>, S) -> bool,
        zero: S,
        x: Seq<Node>,
        base: int,
        cells: Seq<Cell<S>>,
    ) -> bool {
        let n = self.w@.len() as int;
        &&& base + 2 * n < cells.len()
        &&& forall|i: int|
            0 <= i < n ==> {
                &&& (#[trigger] cells[product_at(base, i)]).op == Op::Multiply(self.w@[i], x[i])
                &&& cells[sum_at(base, i)].op == Op::Add(
                    self.activation(base, i),
                    Node::at(product_at(base, i)),
                )
            }
        &&& cells[base + 2 * n].op == Op::HyperbolicTangent(self.activation(base, n))
        &&& forall|j: int|
            base <= j <= base + 2 * n ==> (#[trigger] cells[j]).grad == zero && computed(
                law,
                cells,
                j,
            )
    }

    /// A forward pass stays in place when cells are appended to the graph.
    pub proof fn lemma_forwarded_extends<S>(
        &self,
        law: spec_fn(Arith<S>, S) -> bool,
        zero: S,
        x: Seq<Node>,
        base: int,
        pre: Seq<Cell<S>>,
        post: Seq<Cell<S>>,
    )
        requires
            0 <= base,
            well_ordered(pre),
            extends(pre, post),
            self.forwarded(law, zero, x, base, pre),
        ensures
            self.forwarded(law, zero, x, base, post),
    {
        let n = self.w@.len() as int;
        assert forall|i: int| 0 <= i < n implies {
            &&& (#[trigger] post[product_at(base, i)]).op == Op::Multiply(self.w@[i], x[i])
            &&& post[sum_at(base, i)].op == Op::Add(
                self.activation(base, i),
                Node::at(product_at(base, i)),
            )
        } by {
            assert(pre[product_at(base, i)].op == Op::Multiply(self.w@[i], x[i]));
            assert(post[sum_at(base, i)] == pre[sum_at(base, i)]);
        }
        assert forall|j: int| base <= j <= base + 2 * n implies (#[trigger] post[j]).grad == zero
            && computed(law, post, j) by {
            assert(pre[j].grad == zero);
            lemma_computed_extends(law, pre, post, j);
        }
    }

    /// A neuron whose parameters start from the given values: each weight in
    /// turn, then the bias, is a new leaf appended to the graph.
    pub fn with_values<S: Copy>(weights: &Vec<S>, bias: S, graph: &mut Graph<S>) -> (neuron: Neuron)
        requires
            old(graph).wf(),
        ensures
            final(graph).wf(),
            final(graph).units() == old(graph).units(),
            extends(old(graph)@, final(graph)@),
            final(graph)@.len() == old(graph)@.len() + weights@.len() + 1,
            neuron.wf(final(graph)@),
            neuron.packed(final(graph)@),
            neuron.first() == old(graph)@.len(),
            neuron.end() == final(graph)@.len(),
            neuron.holds(weights@, bias, old(graph).units().zero, final(graph)@),
    {
        let ghost base = graph@.len() as int;
        let ghost zero = graph.units().zero;
        let mut w: Vec<Node> = Vec::new();
        let mut i: usize = 0;
        while i < weights.len()
            invariant
                graph.wf(),
                graph.units() == old(graph).units(),
                zero == old(graph).units().zero,
                extends(old(graph)@, graph@),
                base == old(graph)@.len(),
                i <= weights@.len(),
                w@.len() == i,
                graph@.len() == base + i,
                forall|j: int| 0 <= j < i ==> (#[trigger] w@[j]).index() == base + j,
                forall|j: int| 0 <= j < i ==> graph@[base + j] == fresh(#[trigger] weights@[j], zero),
            decreases weights@.len() - i,
        {
            let node = Node::new(weights[i], graph);
            w.push(node);
            i = i + 1;
        }
        let b = Node::new(bias, graph);
        let neuron = Neuron { w, b };
        proof {
            assert forall|j: int| 0 <= j < weights@.len() implies graph@[neuron.w@[j].index()]
                == fresh(#[trigger] weights@[j], zero) by {
                assert(neuron.w@[j].index() == base + j);
            }
            assert forall|t: int| neuron.first() <= t < neuron.end() implies (#[trigger] graph@[t]).op
                == Op::Leaf by {
                if t < base + weights@.len() {
                    assert(graph@[base + (t - base)] == fresh(weights@[t - base], zero));
                }
            }
            neuron.lemma_packed(graph@);
        }
        neuron
    }

    /// A neuron with `n_in` weights, none if `n_in` is negative. The values
    /// are drawn from `draw`, one for each weight in turn and then one for the
    /// bias, and the neuron is made of them as [`Neuron::with_values`] makes
    /// it.
    pub fn new<S: Copy, D: Fn() -> S>(n_in: i64, graph: &mut Graph<S>, draw: &D) -> (neuron: Neuron)
        requires
            old(graph).wf(),
            draw.requires(()),
        ensures
            final(graph).wf(),
            final(graph).units() == old(graph).units(),
            extends(old(graph)@, final(graph)@),
            final(graph)@.len() == old(graph)@.len() + size_of(n_in) + 1,
            neuron.wf(final(graph)@),
            neuron.packed(final(graph)@),
            neuron.w@.len() == size_of(n_in),
            neuron.first() == old(graph)@.len(),
            neuron.end() == final(graph)@.len(),
            neuron.drawn(draw, old(graph).units().zero, final(graph)@),
    {
        let values = draw_parameters(n_in, draw);
        let neuron = Neuron::with_values(&values.weights, values.bias, graph);
        assert(neuron.holds(values.weights@, values.bias, graph.units().zero, graph@));
        neuron
    }

    /// Builds the neuron's output for the inputs `x`: `tanh(b + w[0] * x[0] +
    /// ... )`, the terms added from left to right. Fails, leaving the graph as
    /// it was, exactly if the number of inputs differs from the number of
    /// weights. Otherwise the cells of [`Neuron::forwarded`] are appended and
    /// the last of them is returned.
    pub fn forward<S: Copy, K: Fn(Arith<S>) -> S>(
        &self,
        x: &Vec<Node>,
        graph: &mut Graph<S>,
        k: &K,
    ) -> (r: Result<Node, ShapeMismatch>)
        requires
            old(graph).wf(),
            self.wf(old(graph)@),
            forall|j: int| 0 <= j < x@.len() ==> old(graph).has(#[trigger] x@[j]),
            serves(k, old(graph).units()),
        ensures
            final(graph).wf(),
            final(graph).units() == old(graph).units(),
            self.wf(final(graph)@),
            match r {
                Ok(out) => {
                    &&& x@.len() == self.w@.len()
                    &&& extends(old(graph)@, final(graph)@)
                    &&& final(graph)@.len() == old(graph)@.len() + 2 * self.w@.len() + 1
                    &&& self.forwarded(
                        answers(k),
                        old(graph).units().zero,
                        x@,
                        old(graph)@.len() as int,
                        final(graph)@,
                    )
                    &&& out.index() == final(graph)@.len() - 1
                },
                Err(e) => {
                    &&& x@.len() != self.w@.len()
                    &&& e == (ShapeMismatch { expected: self.w.len(), found: x.len() })
                    &&& final(graph)@ == old(graph)@
                },
            },
    {
        if x.len() != self.w.len() {
            return Err(ShapeMismatch { expected: self.w.len(), found: x.len() });
        }
        let ghost base = graph@.len() as int;
        let ghost zero = graph.units().zero;
        let n = self.w.len();
        let mut act = self.b;
        let mut i: usize = 0;
        while i < n
            invariant
                graph.wf(),
                graph.units() == old(graph).units(),
                serves(k, graph.units()),
                self.wf(old(graph)@),
                extends(old(graph)@, graph@),
                base == old(graph)@.len(),
                zero == old(graph).units().zero,
                n == self.w@.len(),
                n == x@.len(),
                forall|j: int| 0 <= j < x@.len() ==> old(graph).has(#[trigger] x@[j]),
                i <= n,
                graph@.len() == base + 2 * i,
                act == self.activation(base, i as int),
                forall|t: int|
                    0 <= t < i ==> {
                        &&& (#[trigger] graph@[product_at(base, t)]).op == Op::Multiply(
                            self.w@[t],
                            x@[t],
                        )
                        &&& graph@[sum_at(base, t)].op == Op::Add(
                            self.activation(base, t),
                            Node::at(product_at(base, t)),
                        )
                    },
                forall|j: int|
                    base <= j < base + 2 * i ==> (#[trigger] graph@[j]).grad == zero && computed(
                        answers(k),
                        graph@,
                        j,
                    ),
            decreases n - i,
        {
            let ghost before = graph@;
            let weighted = self.w[i].mul(x[i], graph, k);
            let ghost between = graph@;
            act = act.add(weighted, graph, k);
            proof {
                assert(product_at(base, i as int) == base + 2 * i);
                assert(sum_at(base, i as int) == base + 2 * i + 1);
                assert(computed(answers(k), between, base + 2 * i));
                assert forall|j: int| base <= j < base + 2 * (i + 1) implies (#[trigger] graph@[j]).grad
                    == zero && computed(answers(k), graph@, j) by {
                    if j < base + 2 * i {
                        lemma_computed_extends(answers(k), before, graph@, j);
                    } else if j == base + 2 * i {
                        lemma_computed_extends(answers(k), between, graph@, j);
                    }
                }
                assert forall|t: int| 0 <= t < i + 1 implies {
                    &&& (#[trigger] graph@[product_at(base, t)]).op == Op::Multiply(
                        self.w@[t],
                        x@[t],
                    )
                    &&& graph@[sum_at(base, t)].op == Op::Add(
                        self.activation(base, t),
                        Node::at(product_at(base, t)),
                    )
                } by {
                    if t < i {
                        assert(before[product_at(base, t)].op == Op::Multiply(self.w@[t], x@[t]));
                    }
                }
            }
            i = i + 1;
        }
        let ghost before = graph@;
        let out = act.tanh(graph, k);
        proof {
            assert forall|j: int| base <= j <= base + 2 * n implies (#[trigger] graph@[j]).grad
                == zero && computed(answers(k), graph@, j) by {
                if j < base + 2 * n {
                    lemma_computed_extends(answers(k), before, graph@, j);
                }
            }
            assert forall|t: int| 0 <= t < n implies {
                &&& (#[trigger] graph@[product_at(base, t)]).op == Op::Multiply(self.w@[t], x@[t])
                &&& graph@[sum_at(base, t)].op == Op::Add(
                    self.activation(base, t),
                    Node::at(product_at(base, t)),
                )
            } by {
                assert(before[product_at(base, t)].op == Op::Multiply(self.w@[t], x@[t]));
            }
        }
        Ok(out)
    }

    /// One step of gradient descent on every weight in turn, then on the
    /// bias: see [`stepped`]. Nothing but the values of the parameters
    /// changes.
    pub fn update_params<S: Copy, K: Fn(Arith<S>) -> S>(
        &self,
        learning_rate: S,
        graph: &mut Graph<S>,
        k: &K,
    )
        requires
            old(graph).wf(),
            self.wf(old(graph)@),
            serves(k, old(graph).units()),
        ensures
            final(graph).wf(),
            final(graph).units() == old(graph).units(),
            self.wf(final(graph)@),
            updated_in(
                answers(k),
                old(graph).units(),
                learning_rate,
                self.params(),
                old(graph)@,
                final(graph)@,
            ),
    {
        let n = self.w.len();
        let mut i: usize = 0;
        proof {
            self.lemma_weights_before_zero();
        }
        while i < n
            invariant
                graph.wf(),
                graph.units() == old(graph).units(),
                serves(k, graph.units()),
                self.wf(old(graph)@),
                n == self.w@.len(),
                i <= n,
                updated_in(
                    answers(k),
                    old(graph).units(),
                    learning_rate,
                    self.weights_before(i as int),
                    old(graph)@,
                    graph@,
                ),
            decreases n - i,
        {
            let ghost before = graph@;
            let ghost t = self.w@[i as int].index();
            assert(before[t].op == old(graph)@[t].op);
            descend(self.w[i], learning_rate, graph, k);
            proof {
                self.lemma_weights_before_next(i as int);
                if self.owns_before(i as int, t) {
                    let m = choose|m: int|
                        0 <= m < i && m < self.w@.len() && (#[trigger] self.w@[m]).index() == t;
                    assert(self.w@[m].index() != self.w@[i as int].index());
                }
                assert(before[t] == old(graph)@[t]);
            }
            i = i + 1;
        }
        let ghost before = graph@;
        let ghost t = self.b.index();
        assert(before[t].op == old(graph)@[t].op);
        proof {
            if self.owns_before(n as int, t) {
                let m = choose|m: int|
                    0 <= m < n && m < self.w@.len() && (#[trigger] self.w@[m]).index() == t;
                assert(self.w@[m].index() != self.b.index());
            }
            assert(before[t] == old(graph)@[t]);
        }
        descend(self.b, learning_rate, graph, k);
        proof {
            self.lemma_wf_kept(old(graph)@, graph@);
        }
    }

    /// Sets the gradient of every weight and of the bias to zero. No other
    /// cell is touched.
    pub fn zero_grad<S: Copy>(&self, graph: &mut Graph<S>)
        requires
            old(graph).wf(),
            self.wf(old(graph)@),
        ensures
            final(graph).wf(),
            final(graph).units() == old(graph).units(),
            self.wf(final(graph)@),
            final(graph)@ == zeroed_in(old(graph).units().zero, self.params(), old(graph)@),
    {
        let zero = graph.zero();
        let n = self.w.len();
        let mut i: usize = 0;
        proof {
            self.lemma_weights_before_zero();
            assert(graph@ =~= zeroed_in(zero, self.weights_before(0), old(graph)@));
        }
        while i < n
            invariant
                graph.wf(),
                graph.units() == old(graph).units(),
                zero == graph.units().zero,
                self.wf(old(graph)@),
                n == self.w@.len(),
                i <= n,
                graph@ == zeroed_in(zero, self.weights_before(i as int), old(graph)@),
            decreases n - i,
        {
            self.w[i].set_grad(zero, graph);
            proof {
                self.lemma_weights_before_next(i as int);
                assert(graph@ =~= zeroed_in(zero, self.weights_before(i + 1), old(graph)@));
            }
            i = i + 1;
        }
        self.b.set_grad(zero, graph);
        proof {
            assert(graph@ =~= zeroed_in(zero, self.params(), old(graph)@));
            self.lemma_wf_kept(old(graph)@, graph@);
        }
    }
}

/// Draws the values for a neuron with `n_in` weights: one for each weight in
/// turn, then one for the bias.
pub fn draw_parameters<S: Copy, D: Fn() -> S>(n_in: i64, draw: &D) -> (values: Parameters<S>)
    requires
        draw.requires(()),
    ensures
        values.weights@.len() == size_of(n_in),
        all_drawn(draw, values.weights@),
        draw.ensures((), values.bias),
{
    let mut weights: Vec<S> = Vec::new();
    let mut i: i64 = 0;
    while i < n_in
        invariant
            draw.requires(()),
            0 <= i,
            i <= n_in || i == 0,
            weights@.len() == i,
            all_drawn(draw, weights@),
        decreases n_in - i,
    {
        let value = draw();
        weights.push(value);
        i = i + 1;
    }
    let bias = draw();
    Parameters { weights, bias }
}

/// One step of gradient descent on the leaf `p`.
fn descend<S: Copy, K: Fn(Arith<S>) -> S>(p: Node, rate: S, graph: &mut Graph<S>, k: &K)
    requires
        old(graph).wf(),
        old(graph).has(p),
        old(graph)@[p.index()].op == Op::Leaf,
        serves(k, old(graph).units()),
    ensures
        final(graph).wf(),
        final(graph).units() == old(graph).units(),
        updated(
            answers(k),
            old(graph).units(),
            rate,
            p.index(),
            p.index() + 1,
            old(graph)@,
            final(graph)@,
        ),
{
    let clipped = k(Arith::Clamp(p.grad(graph), graph.minus_one(), graph.one()));
    let delta = k(Arith::Product(rate, clipped));
    let value = k(Arith::Difference(p.val(graph), delta));
    p.set_val(value, graph);
    assert(answers(k)(
        Arith::Clamp(old(graph)@[p.index()].grad, graph.units().minus_one, graph.units().one),
        clipped,
    ));
    assert(answers(k)(Arith::Product(rate, clipped), delta));
}

} // verus!

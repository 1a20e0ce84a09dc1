//! A layer: neurons that share one input vector.

use crate::arith::{answers, serves, Arith, Units};
use crate::graph::{extends, well_ordered, Cell, Graph, Node, Op};
use crate::neuron::{
    all_drawn, draw_parameters, size_of, stepped, updated, zeroed, Neuron, Parameters,
    ShapeMismatch,
};
use vstd::prelude::*;

verus! {

/// An ordered set of neurons with one fan-in. Their parameters stand side by
/// side in the graph, neuron after neuron, from position `first` on.
#[derive(Debug, Clone)]
pub struct Layer {
    first: usize,
    neurons: Vec<Neuron>,
}

/// Position at which the cells of neuron `q` begin when a layer of fan-in
/// `fan_in` has made a forward pass that appended at `base`: each neuron
/// takes `2 * fan_in + 1` cells.
pub open spec fn block(base: int, fan_in: int, q: int) -> int {
    base + q * (2 * fan_in + 1)
}

/// The blocks of a forward pass follow one another.
pub proof fn lemma_block_next(base: int, fan_in: int, q: int)
    ensures
        block(base, fan_in, q + 1) == block(base, fan_in, q) + 2 * fan_in + 1,
        block(base, fan_in, 0) == base,
{
    assert((q + 1) * (2 * fan_in + 1) == q * (2 * fan_in + 1) + (2 * fan_in + 1))
        by (nonlinear_arith);
}

/// Two updates of adjoining ranges make one update of the joint range.
pub proof fn lemma_updated_joins<S>(
    law: spec_fn(Arith<S>, S) -> bool,
    units: Units<S>,
    rate: S,
    lo: int,
    mid: int,
    hi: int,
    pre: Seq<Cell<S>>,
    between: Seq<Cell<S>>,
    post: Seq<Cell<S>>,
)
    requires
        lo <= mid <= hi,
        updated(law, units, rate, lo, mid, pre, between),
        updated(law, units, rate, mid, hi, between, post),
    ensures
        updated(law, units, rate, lo, hi, pre, post),
{
    assert forall|i: int| 0 <= i < pre.len() implies if lo <= i < hi {
        stepped(law, units, rate, pre[i], #[trigger] post[i])
    } else {
        post[i] == pre[i]
    } by {
        assert(between[i] == between[i]);
    }
}

/// Every neuron of `values` has as many weights as the first.
pub open spec fn uniform<S>(values: Seq<Parameters<S>>) -> bool {
    forall|q: int|
        0 <= q < values.len() ==> (#[trigger] values[q]).weights@.len()
            == values[0].weights@.len()
}

/// Every value of `values` is one that `draw` may return.
pub open spec fn layer_drawn<S, D: Fn() -> S>(draw: &D, values: Seq<Parameters<S>>) -> bool {
    forall|q: int|
        0 <= q < values.len() ==> all_drawn(draw, (#[trigger] values[q]).weights@) && draw.ensures(
            (),
            values[q].bias,
        )
}

/// Draws the values for a layer of `n_out` neurons with `n_in` weights each,
/// neuron after neuron, each as [`draw_parameters`] draws it.
pub fn draw_layer<S: Copy, D: Fn() -> S>(n_in: i64, n_out: i64, draw: &D) -> (values: Vec<
    Parameters<S>,
>)
    requires
        draw.requires(()),
    ensures
        values@.len() == size_of(n_out),
        forall|q: int| 0 <= q < values@.len() ==> (#[trigger] values@[q]).weights@.len() == size_of(n_in),
        layer_drawn(draw, values@),
{
    let mut values: Vec<Parameters<S>> = Vec::new();
    let mut i: i64 = 0;
    while i < n_out
        invariant
            draw.requires(()),
            0 <= i,
            i <= n_out || i == 0,
            values@.len() == i,
            forall|q: int| 0 <= q < i ==> (#[trigger] values@[q]).weights@.len() == size_of(n_in),
            layer_drawn(draw, values@),
        decreases n_out - i,
    {
        let one = draw_parameters(n_in, draw);
        values.push(one);
        i = i + 1;
    }
    values
}

impl Layer {
    /// In `cells` the parameters of neuron `q` are new leaves that hold the
    /// values `values[q]`.
    pub open spec fn holds<S>(&self, values: Seq<Parameters<S>>, zero: S, cells: Seq<Cell<S>>) -> bool {
        &&& self.width() == values.len()
        &&& forall|q: int|
            0 <= q < values.len() ==> (#[trigger] self.neurons()[q]).holds(
                values[q].weights@,
                values[q].bias,
                zero,
                cells,
            )
    }

    /// In `cells` every parameter of the layer is a new leaf whose value is
    /// one that `draw` may return.
    pub open spec fn drawn<S, D: Fn() -> S>(&self, draw: &D, zero: S, cells: Seq<Cell<S>>) -> bool {
        forall|q: int|
            0 <= q < self.width() ==> (#[trigger] self.neurons()[q]).drawn(draw, zero, cells)
    }

    /// The neurons, in order.
    pub closed spec fn neurons(&self) -> Seq<Neuron> {
        self.neurons@
    }

    /// Position of the layer's first parameter.
    pub closed spec fn first(&self) -> int {
        self.first as int
    }

    /// The number of neurons, which is the number of outputs.
    pub open spec fn width(&self) -> int {
        self.neurons().len() as int
    }

    /// The number of inputs that each neuron takes; zero for a layer without
    /// neurons.
    pub open spec fn fan_in(&self) -> int {
        if self.width() > 0 {
            self.neurons()[0].w@.len() as int
        } else {
            0
        }
    }

    /// Position at which the parameters of neuron `q` begin: each neuron has
    /// one parameter more than the fan-in.
    pub open spec fn start_of(&self, q: int) -> int {
        self.first() + q * (self.fan_in() + 1)
    }

    /// The neurons' parameters follow one another.
    pub proof fn lemma_start_next(&self, q: int)
        ensures
            self.start_of(q + 1) == self.start_of(q) + self.fan_in() + 1,
            self.start_of(0) == self.first(),
    {
        assert((q + 1) * (self.fan_in() + 1) == q * (self.fan_in() + 1) + (self.fan_in() + 1))
            by (nonlinear_arith);
    }

    /// Position after the layer's last parameter.
    pub open spec fn end(&self) -> int {
        self.start_of(self.width())
    }

    /// The layer's invariant with respect to the cells of its graph: every
    /// neuron is packed and has the layer's fan-in, and the neurons'
    /// parameters follow one another from `first` on.
    pub open spec fn wf<S>(&self, cells: Seq<Cell<S>>) -> bool {
        forall|q: int|
            0 <= q < self.width() ==> {
                &&& (#[trigger] self.neurons()[q]).packed(cells)
                &&& self.neurons()[q].w@.len() == self.fan_in()
                &&& self.neurons()[q].first() == self.start_of(q)
            }
    }

    /// From position `base` on, `cells` holds a forward pass of every neuron
    /// on the inputs `x`, neuron after neuron.
    pub open spec fn forwarded<S>(
        &self,
        law: spec_fn(Arith<S>, S) -> bool,
        zero: S,
        x: Seq<Node>,
        base: int,
        cells: Seq<Cell<S>>,
    ) -> bool {
        forall|q: int|
            0 <= q < self.width() ==> (#[trigger] self.neurons()[q]).forwarded(
                law,
                zero,
                x,
                block(base, self.fan_in(), q),
                cells,
            )
    }

    /// The outputs of a forward pass that appended at `base`: for each neuron
    /// the last cell of its block.
    pub open spec fn outputs(&self, base: int) -> Seq<Node> {
        Seq::new(
            self.width() as nat,
            |q: int| Node::at(block(base, self.fan_in(), q) + 2 * self.fan_in()),
        )
    }

    /// A forward pass stays in place when cells are appended to the graph.
    pub proof fn lemma_forwarded_extends<S>(
        &self,
        law: spec_fn(Arith<S>, S) -> bool,
        zero: S,
        x: Seq<Node>,
        base: int,
        pre: Seq<Cell<S>>,
        post: Seq<Cell<S>>,
    )
        requires
            0 <= base,
            well_ordered(pre),
            extends(pre, post),
            self.forwarded(law, zero, x, base, pre),
        ensures
            self.forwarded(law, zero, x, base, post),
    {
        assert forall|q: int| 0 <= q < self.width() implies (#[trigger] self.neurons()[q]).forwarded(
            law,
            zero,
            x,
            block(base, self.fan_in(), q),
            post,
        ) by {
            assert(0 <= q * (2 * self.fan_in() + 1)) by (nonlinear_arith)
                requires
                    0 <= q,
                    0 <= self.fan_in(),
            ;
            self.neurons()[q].lemma_forwarded_extends(
                law,
                zero,
                x,
                block(base, self.fan_in(), q),
                pre,
                post,
            );
        }
    }

    /// What a layer holds stays when cells are appended to the graph.
    pub proof fn lemma_holds_extends<S>(
        &self,
        values: Seq<Parameters<S>>,
        zero: S,
        pre: Seq<Cell<S>>,
        post: Seq<Cell<S>>,
    )
        requires
            self.wf(pre),
            extends(pre, post),
            self.holds(values, zero, pre),
        ensures
            self.holds(values, zero, post),
    {
        assert forall|q: int| 0 <= q < values.len() implies (#[trigger] self.neurons()[q]).holds(
            values[q].weights@,
            values[q].bias,
            zero,
            post,
        ) by {
            self.neurons()[q].lemma_holds_extends(values[q].weights@, values[q].bias, zero, pre, post);
        }
    }

    /// A well-formed layer stays so when cells are appended to the graph.
    pub proof fn lemma_wf_extends<S>(&self, pre: Seq<Cell<S>>, post: Seq<Cell<S>>)
        requires
            self.wf(pre),
            extends(pre, post),
        ensures
            self.wf(post),
    {
        assert forall|q: int| 0 <= q < self.width() implies (#[trigger] self.neurons()[q]).packed(
            post,
        ) by {
            let neuron = self.neurons()[q];
            assert(neuron.packed(pre));
            assert forall|i: int| neuron.first() <= i < neuron.end() implies (#[trigger] post[i]).op
                == Op::Leaf by {
                assert(pre[i].op == Op::Leaf);
            }
        }
    }

    /// The end of a well-formed layer is not before its start, and within
    /// the graph if the layer has a neuron.
    pub proof fn lemma_span<S>(&self, cells: Seq<Cell<S>>, q: int)
        requires
            self.wf(cells),
            0 <= q <= self.width(),
        ensures
            self.first() <= self.start_of(q),
            q > 0 ==> self.start_of(q) <= cells.len(),
        decreases q,
    {
        self.lemma_start_next(q - 1);
        if q > 0 {
            self.lemma_span(cells, q - 1);
            assert(self.neurons()[q - 1].packed(cells));
        }
    }

    /// A layer with one neuron for each element of `values`, made in order,
    /// each as [`Neuron::with_values`] makes it.
    pub fn with_values<S: Copy>(values: &Vec<Parameters<S>>, graph: &mut Graph<S>) -> (layer: Layer)
        requires
            old(graph).wf(),
            uniform(values@),
        ensures
            final(graph).wf(),
            final(graph).units() == old(graph).units(),
            extends(old(graph)@, final(graph)@),
            layer.wf(final(graph)@),
            layer.width() == values@.len(),
            layer.width() > 0 ==> layer.fan_in() == values@[0].weights@.len(),
            layer.first() == old(graph)@.len(),
            layer.end() == final(graph)@.len(),
            layer.holds(values@, old(graph).units().zero, final(graph)@),
    {
        let first = graph.len();
        let ghost zero = graph.units().zero;
        let ghost fan_in: int = if values@.len() > 0 {
            values@[0].weights@.len() as int
        } else {
            0
        };
        let mut neurons: Vec<Neuron> = Vec::new();
        let mut i: usize = 0;
        while i < values.len()
            invariant
                graph.wf(),
                graph.units() == old(graph).units(),
                zero == old(graph).units().zero,
                uniform(values@),
                extends(old(graph)@, graph@),
                first == old(graph)@.len(),
                fan_in == (if values@.len() > 0 {
                    values@[0].weights@.len() as int
                } else {
                    0
                }),
                i <= values@.len(),
                neurons@.len() == i,
                forall|q: int|
                    0 <= q < i ==> {
                        &&& (#[trigger] neurons@[q]).packed(graph@)
                        &&& neurons@[q].w@.len() == fan_in
                        &&& neurons@[q].first() == first + q * (fan_in + 1)
                        &&& neurons@[q].holds(values@[q].weights@, values@[q].bias, zero, graph@)
                    },
                graph@.len() == first + i * (fan_in + 1),
            decreases values@.len() - i,
        {
            let ghost before = graph@;
            let ghost made = neurons@;
            assert(values@[i as int].weights@.len() == fan_in);
            let neuron = Neuron::with_values(&values[i].weights, values[i].bias, graph);
            neurons.push(neuron);
            proof {
                assert((i + 1) * (fan_in + 1) == i * (fan_in + 1) + (fan_in + 1))
                    by (nonlinear_arith);
                assert forall|q: int| 0 <= q < i + 1 implies {
                    &&& (#[trigger] neurons@[q]).packed(graph@)
                    &&& neurons@[q].holds(values@[q].weights@, values@[q].bias, zero, graph@)
                } by {
                    if q < i {
                        assert(made[q].packed(before));
                        made[q].lemma_holds_extends(
                            values@[q].weights@,
                            values@[q].bias,
                            zero,
                            before,
                            graph@,
                        );
                    }
                }
            }
            i = i + 1;
        }
        Layer { first, neurons }
    }

    /// A layer of `n_out` neurons with `n_in` weights each; a negative number
    /// counts as zero. The values are drawn as [`draw_layer`] draws them, and
    /// the layer is made of them as [`Layer::with_values`] makes it.
    pub fn new<S: Copy, D: Fn() -> S>(n_in: i64, n_out: i64, graph: &mut Graph<S>, draw: &D) -> (layer:
        Layer)
        requires
            old(graph).wf(),
            draw.requires(()),
        ensures
            final(graph).wf(),
            final(graph).units() == old(graph).units(),
            extends(old(graph)@, final(graph)@),
            layer.wf(final(graph)@),
            layer.width() == size_of(n_out),
            layer.width() > 0 ==> layer.fan_in() == size_of(n_in),
            layer.first() == old(graph)@.len(),
            layer.end() == final(graph)@.len(),
            layer.drawn(draw, old(graph).units().zero, final(graph)@),
    {
        let values = draw_layer(n_in, n_out, draw);
        assert(uniform(values@)) by {
            assert forall|q: int| 0 <= q < values@.len() implies (#[trigger] values@[q]).weights@.len()
                == values@[0].weights@.len() by {
                assert(values@[0].weights@.len() == size_of(n_in));
            }
        }
        let layer = Layer::with_values(&values, graph);
        proof {
            assert forall|q: int| 0 <= q < layer.width() implies (#[trigger] layer.neurons()[q]).drawn(
                draw,
                graph.units().zero,
                graph@,
            ) by {
                assert(layer.neurons()[q].holds(
                    values@[q].weights@,
                    values@[q].bias,
                    graph.units().zero,
                    graph@,
                ));
            }
        }
        layer
    }

    /// Builds every neuron's output for the inputs `x`, in the order of the
    /// neurons. Fails, leaving the graph as it was, exactly if the layer has a
    /// neuron and the number of inputs differs from the fan-in.
    pub fn forward<S: Copy, K: Fn(Arith<S>) -> S>(
        &self,
        x: &Vec<Node>,
        graph: &mut Graph<S>,
        k: &K,
    ) -> (r: Result<Vec<Node>, ShapeMismatch>)
        requires
            old(graph).wf(),
            self.wf(old(graph)@),
            forall|j: int| 0 <= j < x@.len() ==> old(graph).has(#[trigger] x@[j]),
            serves(k, old(graph).units()),
        ensures
            final(graph).wf(),
            final(graph).units() == old(graph).units(),
            self.wf(final(graph)@),
            match r {
                Ok(outs) => {
                    &&& self.width() > 0 ==> x@.len() == self.fan_in()
                    &&& extends(old(graph)@, final(graph)@)
                    &&& final(graph)@.len() == block(
                        old(graph)@.len() as int,
                        self.fan_in(),
                        self.width(),
                    )
                    &&& self.forwarded(
                        answers(k),
                        old(graph).units().zero,
                        x@,
                        old(graph)@.len() as int,
                        final(graph)@,
                    )
                    &&& outs@ == self.outputs(old(graph)@.len() as int)
                    &&& forall|j: int| 0 <= j < outs@.len() ==> final(graph).has(#[trigger] outs@[j])
                },
                Err(e) => {
                    &&& self.width() > 0
                    &&& x@.len() != self.fan_in()
                    &&& e == (ShapeMismatch { expected: self.fan_in() as usize, found: x.len() })
                    &&& final(graph)@ == old(graph)@
                },
            },
    {
        let ghost base = graph@.len() as int;
        let ghost zero = graph.units().zero;
        let ghost n = self.fan_in();
        let mut outputs: Vec<Node> = Vec::new();
        let mut q: usize = 0;
        proof {
            lemma_block_next(base, n, 0);
        }
        while q < self.neurons.len()
            invariant
                graph.wf(),
                graph.units() == old(graph).units(),
                serves(k, graph.units()),
                self.wf(old(graph)@),
                self.wf(graph@),
                extends(old(graph)@, graph@),
                forall|j: int| 0 <= j < x@.len() ==> old(graph).has(#[trigger] x@[j]),
                base == old(graph)@.len(),
                zero == old(graph).units().zero,
                n == self.fan_in(),
                q <= self.width(),
                q > 0 ==> x@.len() == n,
                q == 0 ==> graph@ == old(graph)@,
                graph@.len() == block(base, n, q as int),
                outputs@.len() == q,
                forall|p: int|
                    0 <= p < q ==> (#[trigger] self.neurons()[p]).forwarded(
                        answers(k),
                        zero,
                        x@,
                        block(base, n, p),
                        graph@,
                    ),
                forall|p: int|
                    0 <= p < q ==> #[trigger] outputs@[p] == Node::at(block(base, n, p) + 2 * n),
                forall|p: int| 0 <= p < q ==> graph.has(#[trigger] outputs@[p]),
            decreases self.width() - q,
        {
            let ghost before = graph@;
            assert(self.neurons()[q as int].packed(graph@));
            proof {
                self.neurons()[q as int].lemma_packed(graph@);
            }
            match self.neurons[q].forward(x, graph, k) {
                Ok(out) => {
                    outputs.push(out);
                },
                Err(e) => {
                    return Err(e);
                },
            }
            proof {
                lemma_block_next(base, n, q as int);
                self.lemma_wf_extends(before, graph@);
                assert forall|p: int| 0 <= p < q + 1 implies (#[trigger] self.neurons()[p]).forwarded(
                    answers(k),
                    zero,
                    x@,
                    block(base, n, p),
                    graph@,
                ) by {
                    if p < q {
                        lemma_block_next(base, n, p);
                        self.neurons()[p].lemma_forwarded_extends(
                            answers(k),
                            zero,
                            x@,
                            block(base, n, p),
                            before,
                            graph@,
                        );
                    }
                }
            }
            q = q + 1;
        }
        assert(outputs@ =~= self.outputs(base));
        Ok(outputs)
    }

    /// One step of gradient descent on every parameter of the layer, neuron
    /// after neuron. Nothing but the values of the parameters changes.
    pub fn update_params<S: Copy, K: Fn(Arith<S>) -> S>(
        &self,
        step_size: S,
        graph: &mut Graph<S>,
        k: &K,
    )
        requires
            old(graph).wf(),
            self.wf(old(graph)@),
            serves(k, old(graph).units()),
        ensures
            final(graph).wf(),
            final(graph).units() == old(graph).units(),
            self.wf(final(graph)@),
            updated(
                answers(k),
                old(graph).units(),
                step_size,
                self.first(),
                self.end(),
                old(graph)@,
                final(graph)@,
            ),
    {
        let mut q: usize = 0;
        proof {
            self.lemma_start_next(0);
        }
        while q < self.neurons.len()
            invariant
                graph.wf(),
                graph.units() == old(graph).units(),
                serves(k, graph.units()),
                self.wf(graph@),
                q <= self.width(),
                updated(
                    answers(k),
                    old(graph).units(),
                    step_size,
                    self.first(),
                    self.start_of(q as int),
                    old(graph)@,
                    graph@,
                ),
            decreases self.width() - q,
        {
            let ghost before = graph@;
            assert(self.neurons()[q as int].packed(graph@));
            proof {
                self.neurons()[q as int].lemma_packed(graph@);
            }
            self.neurons[q].update_params(step_size, graph, k);
            proof {
                self.lemma_span(before, q as int);
                self.lemma_start_next(q as int);
                lemma_updated_joins(
                    answers(k),
                    graph.units(),
                    step_size,
                    self.first(),
                    self.start_of(q as int),
                    self.start_of(q + 1),
                    old(graph)@,
                    before,
                    graph@,
                );
                self.lemma_wf_kept(before, graph@);
            }
            q = q + 1;
        }
    }

    /// Sets the gradient of every parameter of the layer to zero. No other
    /// cell is touched.
    pub fn zero_grad<S: Copy>(&self, graph: &mut Graph<S>)
        requires
            old(graph).wf(),
            self.wf(old(graph)@),
        ensures
            final(graph).wf(),
            final(graph).units() == old(graph).units(),
            self.wf(final(graph)@),
            final(graph)@ == zeroed(
                old(graph).units().zero,
                self.first(),
                self.end(),
                old(graph)@,
            ),
    {
        let mut q: usize = 0;
        proof {
            self.lemma_start_next(0);
        }
        assert(graph@ =~= zeroed(graph.units().zero, self.first(), self.first(), graph@));
        while q < self.neurons.len()
            invariant
                graph.wf(),
                graph.units() == old(graph).units(),
                self.wf(graph@),
                q <= self.width(),
                graph@ == zeroed(
                    old(graph).units().zero,
                    self.first(),
                    self.start_of(q as int),
                    old(graph)@,
                ),
            decreases self.width() - q,
        {
            let ghost before = graph@;
            assert(self.neurons()[q as int].packed(graph@));
            proof {
                self.neurons()[q as int].lemma_packed(graph@);
            }
            self.neurons[q].zero_grad(graph);
            proof {
                self.lemma_span(before, q as int);
                self.lemma_start_next(q as int);
                self.lemma_wf_kept(before, graph@);
                assert(graph@ =~= zeroed(
                    old(graph).units().zero,
                    self.first(),
                    self.start_of(q + 1),
                    old(graph)@,
                ));
            }
            q = q + 1;
        }
    }

    /// A well-formed layer stays so when the cells keep their number and
    /// their operations.
    pub proof fn lemma_wf_kept<S>(&self, pre: Seq<Cell<S>>, post: Seq<Cell<S>>)
        requires
            self.wf(pre),
            post.len() == pre.len(),
            forall|i: int| 0 <= i < pre.len() ==> (#[trigger] post[i]).op == pre[i].op,
        ensures
            self.wf(post),
    {
        assert forall|q: int| 0 <= q < self.width() implies (#[trigger] self.neurons()[q]).packed(
            post,
        ) by {
            let neuron = self.neurons()[q];
            assert(neuron.packed(pre));
            assert forall|i: int| neuron.first() <= i < neuron.end() implies (#[trigger] post[i]).op
                == Op::Leaf by {
                assert(pre[i].op == Op::Leaf);
            }
        }
    }
}

} // verus!

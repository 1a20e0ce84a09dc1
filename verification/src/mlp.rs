//! A multi-layer perceptron: layers applied one after the other.

use crate::arith::{answers, serves, Arith};
use crate::graph::{extends, well_ordered, Cell, Graph, Node, Op};
use crate::layer::{block, draw_layer, layer_drawn, lemma_updated_joins, uniform, Layer};
use crate::neuron::{size_of, updated, zeroed, Parameters, ShapeMismatch};
use vstd::prelude::*;

verus! {

/// An ordered stack of layers. The parameters of the layers stand side by
/// side in the graph, layer after layer.
#[derive(Debug, Clone)]
pub struct MLP {
    layers: Vec<Layer>,
}

/// Layer `next` follows layer `prev`: its parameters begin where those of
/// `prev` end, and if it has a neuron, its fan-in is the number of neurons of
/// `prev`.
pub open spec fn chained(prev: Layer, next: Layer) -> bool {
    &&& next.first() == prev.end()
    &&& next.width() > 0 ==> next.fan_in() == prev.width()
}

/// The values fit a network: there is a layer, the neurons of a layer have
/// one number of weights, and in each layer after the first that number is the
/// number of neurons of the layer before.
pub open spec fn fitting<S>(values: Seq<Vec<Parameters<S>>>) -> bool {
    &&& values.len() > 0
    &&& forall|l: int| 0 <= l < values.len() ==> uniform((#[trigger] values[l])@)
    &&& forall|l: int, m: int|
        0 <= l && m == l + 1 && m < values.len() && (#[trigger] values[m])@.len() > 0
            ==> values[m]@[0].weights@.len() == (#[trigger] values[l])@.len()
}

impl MLP {
    /// In `cells` the parameters of neuron `q` of layer `l` are new leaves
    /// that hold the values `values[l][q]`.
    pub open spec fn holds<S>(
        &self,
        values: Seq<Vec<Parameters<S>>>,
        zero: S,
        cells: Seq<Cell<S>>,
    ) -> bool {
        &&& self.depth() == values.len()
        &&& forall|l: int|
            0 <= l < values.len() ==> (#[trigger] self.layers()[l]).holds(values[l]@, zero, cells)
    }

    /// In `cells` every parameter of the network is a new leaf whose value is
    /// one that `draw` may return.
    pub open spec fn drawn<S, D: Fn() -> S>(&self, draw: &D, zero: S, cells: Seq<Cell<S>>) -> bool {
        forall|l: int|
            0 <= l < self.depth() ==> (#[trigger] self.layers()[l]).drawn(draw, zero, cells)
    }

    /// The layers, in order.
    pub closed spec fn layers(&self) -> Seq<Layer> {
        self.layers@
    }

    /// The number of layers.
    pub open spec fn depth(&self) -> int {
        self.layers().len() as int
    }

    /// Position of the network's first parameter.
    pub open spec fn first(&self) -> int {
        self.layers()[0].first()
    }

    /// Position after the network's last parameter.
    pub open spec fn end(&self) -> int {
        self.layers().last().end()
    }

    /// The network's invariant with respect to the cells of its graph: there
    /// is a layer, every layer is well formed, and each layer follows the one
    /// before.
    pub open spec fn wf<S>(&self, cells: Seq<Cell<S>>) -> bool {
        &&& self.depth() >= 1
        &&& forall|l: int| 0 <= l < self.depth() ==> (#[trigger] self.layers()[l]).wf(cells)
        &&& forall|l: int, m: int|
            0 <= l && m == l + 1 && m < self.depth() ==> chained(
                #[trigger] self.layers()[l],
                #[trigger] self.layers()[m],
            )
    }

    /// Position at which the cells of layer `l` begin when a forward pass
    /// appended at `base`.
    pub open spec fn base_of(&self, l: int, base: int) -> int
        decreases l,
    {
        if l <= 0 {
            base
        } else {
            block(
                self.base_of(l - 1, base),
                self.layers()[l - 1].fan_in(),
                self.layers()[l - 1].width(),
            )
        }
    }

    /// The inputs of layer `l` in a forward pass on `x` that appended at
    /// `base`: `x` for the first layer, then the outputs of the layer before.
    /// For `l` the number of layers, the outputs of the network.
    pub open spec fn inputs_of(&self, l: int, x: Seq<Node>, base: int) -> Seq<Node> {
        if l <= 0 {
            x
        } else {
            self.layers()[l - 1].outputs(self.base_of(l - 1, base))
        }
    }

    /// From position `base` on, `cells` holds a forward pass of the first `l`
    /// layers on the inputs `x`, layer after layer, each on the outputs of
    /// the one before.
    pub open spec fn forwarded<S>(
        &self,
        law: spec_fn(Arith<S>, S) -> bool,
        zero: S,
        x: Seq<Node>,
        base: int,
        cells: Seq<Cell<S>>,
        l: int,
    ) -> bool
        decreases l,
    {
        if l <= 0 {
            true
        } else {
            &&& self.forwarded(law, zero, x, base, cells, l - 1)
            &&& self.layers()[l - 1].forwarded(
                law,
                zero,
                self.inputs_of(l - 1, x, base),
                self.base_of(l - 1, base),
                cells,
            )
        }
    }

    /// The blocks of a forward pass do not begin before `base`.
    pub proof fn lemma_base_of<S>(&self, cells: Seq<Cell<S>>, l: int, base: int)
        requires
            self.wf(cells),
            0 <= l <= self.depth(),
            0 <= base,
        ensures
            base <= self.base_of(l, base),
        decreases l,
    {
        if l > 0 {
            self.lemma_base_of(cells, l - 1, base);
            let layer = self.layers()[l - 1];
            assert(0 <= layer.width() * (2 * layer.fan_in() + 1)) by (nonlinear_arith)
                requires
                    0 <= layer.width(),
                    0 <= layer.fan_in(),
            ;
        }
    }

    /// A forward pass stays in place when cells are appended to the graph.
    pub proof fn lemma_forwarded_extends<S>(
        &self,
        law: spec_fn(Arith<S>, S) -> bool,
        zero: S,
        x: Seq<Node>,
        base: int,
        pre: Seq<Cell<S>>,
        post: Seq<Cell<S>>,
        l: int,
    )
        requires
            self.wf(pre),
            0 <= l <= self.depth(),
            0 <= base,
            well_ordered(pre),
            extends(pre, post),
            self.forwarded(law, zero, x, base, pre, l),
        ensures
            self.forwarded(law, zero, x, base, post, l),
        decreases l,
    {
        if l > 0 {
            self.lemma_forwarded_extends(law, zero, x, base, pre, post, l - 1);
            self.lemma_base_of(pre, l - 1, base);
            self.layers()[l - 1].lemma_forwarded_extends(
                law,
                zero,
                self.inputs_of(l - 1, x, base),
                self.base_of(l - 1, base),
                pre,
                post,
            );
        }
    }

    /// A well-formed network stays so when cells are appended to the graph.
    pub proof fn lemma_wf_extends<S>(&self, pre: Seq<Cell<S>>, post: Seq<Cell<S>>)
        requires
            self.wf(pre),
            extends(pre, post),
        ensures
            self.wf(post),
    {
        assert forall|l: int| 0 <= l < self.depth() implies (#[trigger] self.layers()[l]).wf(
            post,
        ) by {
            self.layers()[l].lemma_wf_extends(pre, post);
        }
    }

    /// A well-formed network stays so when the cells keep their number and
    /// their operations.
    pub proof fn lemma_wf_kept<S>(&self, pre: Seq<Cell<S>>, post: Seq<Cell<S>>)
        requires
            self.wf(pre),
            post.len() == pre.len(),
            forall|i: int| 0 <= i < pre.len() ==> (#[trigger] post[i]).op == pre[i].op,
        ensures
            self.wf(post),
    {
        assert forall|l: int| 0 <= l < self.depth() implies (#[trigger] self.layers()[l]).wf(
            post,
        ) by {
            self.layers()[l].lemma_wf_kept(pre, post);
        }
    }

    /// A network with one layer for each element of `values`, made in order,
    /// each as [`Layer::with_values`] makes it.
    pub fn with_values<S: Copy>(values: &Vec<Vec<Parameters<S>>>, graph: &mut Graph<S>) -> (mlp: MLP)
        requires
            old(graph).wf(),
            fitting(values@),
        ensures
            final(graph).wf(),
            final(graph).units() == old(graph).units(),
            extends(old(graph)@, final(graph)@),
            mlp.wf(final(graph)@),
            mlp.depth() == values@.len(),
            mlp.layers()[0].width() > 0 ==> mlp.layers()[0].fan_in()
                == values@[0]@[0].weights@.len(),
            mlp.first() == old(graph)@.len(),
            mlp.end() == final(graph)@.len(),
            mlp.holds(values@, old(graph).units().zero, final(graph)@),
    {
        let ghost base = graph@.len() as int;
        let ghost zero = graph.units().zero;
        let mut layers: Vec<Layer> = Vec::new();
        assert(uniform(values@[0]@));
        let input_layer = Layer::with_values(&values[0], graph);
        layers.push(input_layer);
        let mut i: usize = 1;
        while i < values.len()
            invariant
                graph.wf(),
                graph.units() == old(graph).units(),
                fitting(values@),
                extends(old(graph)@, graph@),
                base == old(graph)@.len(),
                zero == old(graph).units().zero,
                1 <= i <= values@.len(),
                layers@.len() == i,
                forall|l: int| 0 <= l < i ==> (#[trigger] layers@[l]).wf(graph@),
                forall|l: int| 0 <= l < i ==> (#[trigger] layers@[l]).holds(values@[l]@, zero, graph@),
                forall|l: int, m: int|
                    0 <= l && m == l + 1 && m < i ==> chained(
                        #[trigger] layers@[l],
                        #[trigger] layers@[m],
                    ),
                layers@[0].width() > 0 ==> layers@[0].fan_in() == values@[0]@[0].weights@.len(),
                layers@[0].first() == base,
                layers@[i - 1].end() == graph@.len(),
            decreases values@.len() - i,
        {
            let ghost before = graph@;
            let ghost made = layers@;
            assert(uniform(values@[i as int]@));
            let layer = Layer::with_values(&values[i], graph);
            layers.push(layer);
            proof {
                assert forall|l: int| 0 <= l < i + 1 implies {
                    &&& (#[trigger] layers@[l]).wf(graph@)
                    &&& layers@[l].holds(values@[l]@, zero, graph@)
                } by {
                    if l < i {
                        assert(made[l].wf(before));
                        made[l].lemma_wf_extends(before, graph@);
                        made[l].lemma_holds_extends(values@[l]@, zero, before, graph@);
                    }
                }
                assert forall|l: int, m: int| 0 <= l && m == l + 1 && m < i + 1 implies chained(
                    #[trigger] layers@[l],
                    #[trigger] layers@[m],
                ) by {
                    if m < i {
                        assert(chained(made[l], made[m]));
                    } else {
                        assert(made[l].holds(values@[l]@, zero, before));
                        assert(values@[m]@.len() > 0 ==> values@[m]@[0].weights@.len()
                            == values@[l]@.len());
                    }
                }
            }
            i = i + 1;
        }
        MLP { layers }
    }

    /// A network for `n_in` inputs whose layer `l` has `n_outs[l]` neurons; a
    /// negative number counts as zero. The values are drawn layer after
    /// layer, each as [`draw_layer`] draws it with the size of the layer
    /// before as its number of weights, and the network is made of them as
    /// [`MLP::with_values`] makes it.
    pub fn new<S: Copy, D: Fn() -> S>(n_in: i64, n_outs: Vec<i64>, graph: &mut Graph<S>, draw: &D) -> (mlp:
        MLP)
        requires
            n_outs@.len() > 0,
            old(graph).wf(),
            draw.requires(()),
        ensures
            final(graph).wf(),
            final(graph).units() == old(graph).units(),
            extends(old(graph)@, final(graph)@),
            mlp.wf(final(graph)@),
            mlp.depth() == n_outs@.len(),
            forall|l: int|
                0 <= l < mlp.depth() ==> (#[trigger] mlp.layers()[l]).width() == size_of(n_outs@[l]),
            mlp.layers()[0].width() > 0 ==> mlp.layers()[0].fan_in() == size_of(n_in),
            mlp.first() == old(graph)@.len(),
            mlp.end() == final(graph)@.len(),
            mlp.drawn(draw, old(graph).units().zero, final(graph)@),
    {
        let mut values: Vec<Vec<Parameters<S>>> = Vec::new();
        let mut i: usize = 0;
        while i < n_outs.len()
            invariant
                draw.requires(()),
                i <= n_outs@.len(),
                values@.len() == i,
                forall|l: int| 0 <= l < i ==> (#[trigger] values@[l])@.len() == size_of(n_outs@[l]),
                forall|l: int, q: int|
                    0 <= l < i && 0 <= q < values@[l]@.len() ==> (#[trigger] values@[l]@[q]).weights@.len()
                        == size_of(
                        if l == 0 {
                            n_in
                        } else {
                            n_outs@[l - 1]
                        },
                    ),
                forall|l: int| 0 <= l < i ==> layer_drawn(draw, (#[trigger] values@[l])@),
            decreases n_outs@.len() - i,
        {
            let fan_in = if i == 0 {
                n_in
            } else {
                n_outs[i - 1]
            };
            let one = draw_layer(fan_in, n_outs[i], draw);
            values.push(one);
            i = i + 1;
        }
        proof {
            assert forall|l: int| 0 <= l < values@.len() implies uniform((#[trigger] values@[l])@) by {
                assert forall|q: int| 0 <= q < values@[l]@.len() implies (#[trigger] values@[l]@[q]).weights@.len()
                    == values@[l]@[0].weights@.len() by {
                    assert(values@[l]@[0].weights@.len() == values@[l]@[q].weights@.len());
                }
            }
            assert forall|l: int, m: int|
                0 <= l && m == l + 1 && m < values@.len() && (#[trigger] values@[m])@.len()
                    > 0 implies values@[m]@[0].weights@.len() == (#[trigger] values@[l])@.len() by {
                assert(values@[m]@[0].weights@.len() == size_of(n_outs@[m - 1]));
            }
        }
        let mlp = MLP::with_values(&values, graph);
        proof {
            let zero = graph.units().zero;
            assert forall|l: int| 0 <= l < mlp.depth() implies {
                &&& (#[trigger] mlp.layers()[l]).width() == size_of(n_outs@[l])
                &&& mlp.layers()[l].drawn(draw, zero, graph@)
            } by {
                let layer = mlp.layers()[l];
                assert(layer.holds(values@[l]@, zero, graph@));
                assert(layer_drawn(draw, values@[l]@));
                assert forall|q: int| 0 <= q < layer.width() implies (#[trigger] layer.neurons()[q]).drawn(
                    draw,
                    zero,
                    graph@,
                ) by {
                    assert(layer.neurons()[q].holds(
                        values@[l]@[q].weights@,
                        values@[l]@[q].bias,
                        zero,
                        graph@,
                    ));
                }
            }
            assert(mlp.layers()[0].holds(values@[0]@, zero, graph@));
        }
        mlp
    }

    /// Threads the inputs `x` through the layers in order, each layer's
    /// outputs being the next layer's inputs, and returns the outputs of the
    /// last layer. Fails, leaving the graph as it was, exactly if the first
    /// layer has a neuron and the number of inputs differs from its fan-in.
    pub fn forward<S: Copy, K: Fn(Arith<S>) -> S>(
        &self,
        x: Vec<Node>,
        graph: &mut Graph<S>,
        k: &K,
    ) -> (r: Result<Vec<Node>, ShapeMismatch>)
        requires
            old(graph).wf(),
            self.wf(old(graph)@),
            forall|j: int| 0 <= j < x@.len() ==> old(graph).has(#[trigger] x@[j]),
            serves(k, old(graph).units()),
        ensures
            final(graph).wf(),
            final(graph).units() == old(graph).units(),
            self.wf(final(graph)@),
            match r {
                Ok(outs) => {
                    &&& self.layers()[0].width() > 0 ==> x@.len() == self.layers()[0].fan_in()
                    &&& extends(old(graph)@, final(graph)@)
                    &&& final(graph)@.len() == self.base_of(self.depth(), old(graph)@.len() as int)
                    &&& self.forwarded(
                        answers(k),
                        old(graph).units().zero,
                        x@,
                        old(graph)@.len() as int,
                        final(graph)@,
                        self.depth(),
                    )
                    &&& outs@ == self.inputs_of(self.depth(), x@, old(graph)@.len() as int)
                    &&& forall|j: int| 0 <= j < outs@.len() ==> final(graph).has(#[trigger] outs@[j])
                },
                Err(e) => {
                    &&& self.layers()[0].width() > 0
                    &&& x@.len() != self.layers()[0].fan_in()
                    &&& e == (ShapeMismatch {
                        expected: self.layers()[0].fan_in() as usize,
                        found: x.len(),
                    })
                    &&& final(graph)@ == old(graph)@
                },
            },
    {
        let ghost base = graph@.len() as int;
        let ghost zero = graph.units().zero;
        let ghost given = x@;
        let mut outputs: Vec<Node> = x;
        let mut l: usize = 0;
        while l < self.layers.len()
            invariant
                graph.wf(),
                graph.units() == old(graph).units(),
                serves(k, graph.units()),
                self.wf(old(graph)@),
                self.wf(graph@),
                extends(old(graph)@, graph@),
                base == old(graph)@.len(),
                zero == old(graph).units().zero,
                given == x@,
                l <= self.depth(),
                l == 0 ==> graph@ == old(graph)@,
                l > 0 ==> (self.layers()[0].width() > 0 ==> given.len() == self.layers()[0].fan_in()),
                outputs@ == self.inputs_of(l as int, given, base),
                l > 0 ==> outputs@.len() == self.layers()[l - 1].width(),
                forall|j: int| 0 <= j < outputs@.len() ==> graph.has(#[trigger] outputs@[j]),
                graph@.len() == self.base_of(l as int, base),
                self.forwarded(answers(k), zero, given, base, graph@, l as int),
            decreases self.depth() - l,
        {
            let ghost before = graph@;
            assert(self.layers()[l as int].wf(graph@));
            proof {
                if l > 0 {
                    assert(chained(self.layers()[l - 1], self.layers()[l as int]));
                }
            }
            match self.layers[l].forward(&outputs, graph, k) {
                Ok(next) => {
                    outputs = next;
                },
                Err(e) => {
                    return Err(e);
                },
            }
            proof {
                self.lemma_wf_extends(before, graph@);
                self.lemma_forwarded_extends(answers(k), zero, given, base, before, graph@, l as int);
            }
            l = l + 1;
        }
        Ok(outputs)
    }

    /// One step of gradient descent on every parameter of the network, layer
    /// after layer. Nothing but the values of the parameters changes.
    pub fn update_params<S: Copy, K: Fn(Arith<S>) -> S>(
        &self,
        step_size: S,
        graph: &mut Graph<S>,
        k: &K,
    )
        requires
            old(graph).wf(),
            self.wf(old(graph)@),
            serves(k, old(graph).units()),
        ensures
            final(graph).wf(),
            final(graph).units() == old(graph).units(),
            self.wf(final(graph)@),
            updated(
                answers(k),
                old(graph).units(),
                step_size,
                self.first(),
                self.end(),
                old(graph)@,
                final(graph)@,
            ),
    {
        let ghost mut done: int = self.first();
        let mut l: usize = 0;
        while l < self.layers.len()
            invariant
                graph.wf(),
                graph.units() == old(graph).units(),
                serves(k, graph.units()),
                self.wf(graph@),
                l <= self.depth(),
                self.first() <= done,
                done == (if l == 0 {
                    self.first()
                } else {
                    self.layers()[l - 1].end()
                }),
                updated(
                    answers(k),
                    old(graph).units(),
                    step_size,
                    self.first(),
                    done,
                    old(graph)@,
                    graph@,
                ),
            decreases self.depth() - l,
        {
            let ghost before = graph@;
            let ghost layer = self.layers()[l as int];
            assert(layer.wf(graph@));
            proof {
                if l > 0 {
                    assert(chained(self.layers()[l - 1], self.layers()[l as int]));
                }
            }
            self.layers[l].update_params(step_size, graph, k);
            proof {
                layer.lemma_span(before, layer.width());
                lemma_updated_joins(
                    answers(k),
                    graph.units(),
                    step_size,
                    self.first(),
                    done,
                    layer.end(),
                    old(graph)@,
                    before,
                    graph@,
                );
                self.lemma_wf_kept(before, graph@);
                done = layer.end();
            }
            l = l + 1;
        }
    }

    /// Sets the gradient of every parameter of the network to zero. No other
    /// cell is touched; in particular none of the cells that a forward pass
    /// appended.
    pub fn zero_grad<S: Copy>(&self, graph: &mut Graph<S>)
        requires
            old(graph).wf(),
            self.wf(old(graph)@),
        ensures
            final(graph).wf(),
            final(graph).units() == old(graph).units(),
            self.wf(final(graph)@),
            final(graph)@ == zeroed(
                old(graph).units().zero,
                self.first(),
                self.end(),
                old(graph)@,
            ),
    {
        let ghost mut done: int = self.first();
        let mut l: usize = 0;
        assert(graph@ =~= zeroed(graph.units().zero, self.first(), self.first(), graph@));
        while l < self.layers.len()
            invariant
                graph.wf(),
                graph.units() == old(graph).units(),
                self.wf(graph@),
                l <= self.depth(),
                self.first() <= done,
                done == (if l == 0 {
                    self.first()
                } else {
                    self.layers()[l - 1].end()
                }),
                graph@ == zeroed(old(graph).units().zero, self.first(), done, old(graph)@),
            decreases self.depth() - l,
        {
            let ghost before = graph@;
            let ghost layer = self.layers()[l as int];
            assert(layer.wf(graph@));
            proof {
                if l > 0 {
                    assert(chained(self.layers()[l - 1], self.layers()[l as int]));
                }
            }
            self.layers[l].zero_grad(graph);
            proof {
                layer.lemma_span(before, layer.width());
                self.lemma_wf_kept(before, graph@);
                assert(graph@ =~= zeroed(
                    old(graph).units().zero,
                    self.first(),
                    layer.end(),
                    old(graph)@,
                ));
                done = layer.end();
            }
            l = l + 1;
        }
    }
}

} // verus!

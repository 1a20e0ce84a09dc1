//! The computation graph: an arena of cells, and the operations that build it.

use crate::arith::{answers, serves, Arith, Units};
use vstd::prelude::*;

verus! {

/// Handle of one cell of a [`Graph`]: its position in the arena. A node may be
/// an operand of any number of later cells, and of one cell twice.
#[derive(Clone, Copy, Debug, PartialEq, Eq, Structural)]
pub struct Node(pub usize);

/// How a cell's value came about, with the operands in the order in which the
/// operation took them.
#[derive(Clone, Copy, Debug, PartialEq, Eq, Structural)]
pub enum Op {
    /// A constant, an input or a trainable parameter.
    Leaf,
    /// First operand plus second operand.
    Add(Node, Node),
    /// First operand times second operand.
    Multiply(Node, Node),
    /// Hyperbolic tangent of the operand.
    HyperbolicTangent(Node),
}

/// One record of the arena.
#[derive(Debug)]
pub struct Cell<S> {
    /// The forward value.
    pub value: S,
    /// The gradient accumulated so far.
    pub grad: S,
    /// The operation that produced `value`, and its operands.
    pub op: Op,
}

/// An arena of cells. Cells are only ever appended or released from the end,
/// and every operand of a cell stands before it, so the graph is acyclic by
/// construction.
pub struct Graph<S> {
    cells: Vec<Cell<S>>,
    units: Units<S>,
}

impl Node {
    /// The node's position in the arena.
    pub open spec fn index(self) -> int {
        self.0 as int
    }

    /// The handle of the cell at position `i`.
    pub open spec fn at(i: int) -> Node {
        Node(i as usize)
    }
}

impl Op {
    /// Every operand stands before position `i`.
    pub open spec fn below(self, i: int) -> bool {
        match self {
            Op::Leaf => true,
            Op::Add(a, b) => a.index() < i && b.index() < i,
            Op::Multiply(a, b) => a.index() < i && b.index() < i,
            Op::HyperbolicTangent(a) => a.index() < i,
        }
    }
}

/// Every cell's operands stand before the cell.
pub open spec fn well_ordered<S>(cells: Seq<Cell<S>>) -> bool {
    forall|i: int| 0 <= i < cells.len() ==> (#[trigger] cells[i]).op.below(i)
}

/// The value of cell `i` is an answer that `law` admits to the cell's
/// operation, asked of the values of its operands. Holds of every leaf.
pub open spec fn computed<S>(law: spec_fn(Arith<S>, S) -> bool, cells: Seq<Cell<S>>, i: int) -> bool {
    match cells[i].op {
        Op::Leaf => true,
        Op::Add(a, b) => law(
            Arith::Sum(cells[a.index()].value, cells[b.index()].value),
            cells[i].value,
        ),
        Op::Multiply(a, b) => law(
            Arith::Product(cells[a.index()].value, cells[b.index()].value),
            cells[i].value,
        ),
        Op::HyperbolicTangent(a) => law(Arith::Tanh(cells[a.index()].value), cells[i].value),
    }
}

/// `post` begins with the cells of `pre`, unchanged.
pub open spec fn extends<S>(pre: Seq<Cell<S>>, post: Seq<Cell<S>>) -> bool {
    &&& pre.len() <= post.len()
    &&& forall|i: int| 0 <= i < pre.len() ==> #[trigger] post[i] == pre[i]
}

/// A cell whose value is computed stays so when cells are appended.
pub proof fn lemma_computed_extends<S>(
    law: spec_fn(Arith<S>, S) -> bool,
    pre: Seq<Cell<S>>,
    post: Seq<Cell<S>>,
    i: int,
)
    requires
        well_ordered(pre),
        extends(pre, post),
        0 <= i < pre.len(),
        computed(law, pre, i),
    ensures
        computed(law, post, i),
{
    assert(pre[i].op.below(i));
    assert(post[i] == pre[i]);
}

impl<S> View for Graph<S> {
    type V = Seq<Cell<S>>;

    closed spec fn view(&self) -> Seq<Cell<S>> {
        self.cells@
    }
}

impl<S: Copy> Graph<S> {
    /// The scalars that the graph was created with.
    pub closed spec fn units(&self) -> Units<S> {
        self.units
    }

    /// The arena's invariant.
    pub open spec fn wf(&self) -> bool {
        well_ordered(self@)
    }

    /// `n` is the handle of a cell of this graph.
    pub open spec fn has(&self, n: Node) -> bool {
        n.index() < self@.len()
    }

    /// An empty graph whose rules will use the scalars `units`.
    pub fn new(units: Units<S>) -> (g: Self)
        ensures
            g.wf(),
            g@ == Seq::<Cell<S>>::empty(),
            g.units() == units,
    {
        Graph { cells: Vec::new(), units }
    }

    /// The number of cells. Taken before a forward pass, it is the mark to
    /// which [`Graph::release`] later cuts the graph back.
    pub fn len(&self) -> (n: usize)
        ensures
            n == self@.len(),
    {
        self.cells.len()
    }

    /// Discards every cell at position `mark` or later; the cells before it
    /// keep their values and gradients. A mark beyond the end changes nothing.
    pub fn release(&mut self, mark: usize)
        requires
            old(self).wf(),
        ensures
            final(self).wf(),
            final(self).units() == old(self).units(),
            final(self)@ == (if mark <= old(self)@.len() {
                old(self)@.take(mark as int)
            } else {
                old(self)@
            }),
    {
        if mark <= self.cells.len() {
            self.cells.truncate(mark);
        }
    }

    /// The unit one.
    pub(crate) fn one(&self) -> (u: S)
        ensures
            u == self.units().one,
    {
        self.units.one
    }

    /// The unit minus one.
    pub(crate) fn minus_one(&self) -> (u: S)
        ensures
            u == self.units().minus_one,
    {
        self.units.minus_one
    }

    /// The unit zero.
    pub(crate) fn zero(&self) -> (u: S)
        ensures
            u == self.units().zero,
    {
        self.units.zero
    }

    /// Appends a cell with gradient zero.
    fn grow(&mut self, value: S, op: Op) -> (n: Node)
        requires
            old(self).wf(),
            op.below(old(self)@.len() as int),
        ensures
            final(self).wf(),
            final(self).units() == old(self).units(),
            n.index() == old(self)@.len(),
            final(self)@ == old(self)@.push(Cell { value, grad: old(self).units().zero, op }),
    {
        let n = Node(self.cells.len());
        self.cells.push(Cell { value, grad: self.units.zero, op });
        n
    }
}

impl Node {
    /// A new leaf with value `val` and gradient zero.
    pub fn new<S: Copy>(val: S, graph: &mut Graph<S>) -> (n: Node)
        requires
            old(graph).wf(),
        ensures
            final(graph).wf(),
            final(graph).units() == old(graph).units(),
            n.index() == old(graph)@.len(),
            final(graph)@ == old(graph)@.push(
                Cell { value: val, grad: old(graph).units().zero, op: Op::Leaf },
            ),
    {
        graph.grow(val, Op::Leaf)
    }

    /// The node's forward value.
    pub fn val<S: Copy>(&self, graph: &Graph<S>) -> (v: S)
        requires
            graph.has(*self),
        ensures
            v == graph@[self.index()].value,
    {
        graph.cells[self.0].value
    }

    /// The gradient accumulated in the node so far.
    pub fn grad<S: Copy>(&self, graph: &Graph<S>) -> (g: S)
        requires
            graph.has(*self),
        ensures
            g == graph@[self.index()].grad,
    {
        graph.cells[self.0].grad
    }

    /// The operation that produced the node, with its operands.
    pub fn op<S: Copy>(&self, graph: &Graph<S>) -> (op: Op)
        requires
            graph.has(*self),
        ensures
            op == graph@[self.index()].op,
    {
        graph.cells[self.0].op
    }

    /// Overwrites the node's gradient with `grad`; nothing else changes.
    pub fn set_grad<S: Copy>(&self, grad: S, graph: &mut Graph<S>)
        requires
            old(graph).wf(),
            old(graph).has(*self),
        ensures
            final(graph).wf(),
            final(graph).units() == old(graph).units(),
            final(graph)@ == old(graph)@.update(
                self.index(),
                Cell {
                    value: old(graph)@[self.index()].value,
                    grad,
                    op: old(graph)@[self.index()].op,
                },
            ),
    {
        let value = graph.cells[self.0].value;
        let op = graph.cells[self.0].op;
        graph.cells.set(self.0, Cell { value, grad, op });
    }

    /// Overwrites the value of a leaf with `val`; nothing else changes.
    pub(crate) fn set_val<S: Copy>(&self, val: S, graph: &mut Graph<S>)
        requires
            old(graph).wf(),
            old(graph).has(*self),
            old(graph)@[self.index()].op == Op::Leaf,
        ensures
            final(graph).wf(),
            final(graph).units() == old(graph).units(),
            final(graph)@ == old(graph)@.update(
                self.index(),
                Cell { value: val, grad: old(graph)@[self.index()].grad, op: Op::Leaf },
            ),
    {
        let grad = graph.cells[self.0].grad;
        graph.cells.set(self.0, Cell { value: val, grad, op: Op::Leaf });
    }

    /// A new node whose value is the kernel's sum of the two operands' values.
    pub fn add<S: Copy, K: Fn(Arith<S>) -> S>(self, other: Node, graph: &mut Graph<S>, k: &K) -> (r:
        Node)
        requires
            old(graph).wf(),
            old(graph).has(self),
            old(graph).has(other),
            serves(k, old(graph).units()),
        ensures
            final(graph).wf(),
            final(graph).units() == old(graph).units(),
            r.index() == old(graph)@.len(),
            final(graph)@ == old(graph)@.push(
                Cell {
                    value: final(graph)@[r.index()].value,
                    grad: old(graph).units().zero,
                    op: Op::Add(self, other),
                },
            ),
            answers(k)(Arith::Sum(old(graph)@[self.index()].value, old(graph)@[other.index()].value),
                final(graph)@[r.index()].value,
            ),
    {
        let value = k(Arith::Sum(self.val(graph), other.val(graph)));
        graph.grow(value, Op::Add(self, other))
    }

    /// A new node whose value is the kernel's product of the two operands'
    /// values.
    pub fn mul<S: Copy, K: Fn(Arith<S>) -> S>(self, other: Node, graph: &mut Graph<S>, k: &K) -> (r:
        Node)
        requires
            old(graph).wf(),
            old(graph).has(self),
            old(graph).has(other),
            serves(k, old(graph).units()),
        ensures
            final(graph).wf(),
            final(graph).units() == old(graph).units(),
            r.index() == old(graph)@.len(),
            final(graph)@ == old(graph)@.push(
                Cell {
                    value: final(graph)@[r.index()].value,
                    grad: old(graph).units().zero,
                    op: Op::Multiply(self, other),
                },
            ),
            answers(k)(Arith::Product(old(graph)@[self.index()].value, old(graph)@[other.index()].value),
                final(graph)@[r.index()].value,
            ),
    {
        let value = k(Arith::Product(self.val(graph), other.val(graph)));
        graph.grow(value, Op::Multiply(self, other))
    }

    /// `self` minus `other`, built as `self + other * c` where `c` is a new
    /// leaf that holds the unit minus one. Three cells are appended: the leaf,
    /// the product and the sum, in this order; the sum is returned.
    pub fn sub<S: Copy, K: Fn(Arith<S>) -> S>(self, other: Node, graph: &mut Graph<S>, k: &K) -> (r:
        Node)
        requires
            old(graph).wf(),
            old(graph).has(self),
            old(graph).has(other),
            serves(k, old(graph).units()),
        ensures
            final(graph).wf(),
            final(graph).units() == old(graph).units(),
            r.index() == old(graph)@.len() + 2,
            ({
                let zero = old(graph).units().zero;
                let minus_one = old(graph).units().minus_one;
                let c = Node::at(r.index() - 2);
                let p = Node::at(r.index() - 1);
                let product = final(graph)@[p.index()].value;
                let sum = final(graph)@[r.index()].value;
                &&& final(graph)@ == old(graph)@.push(
                    Cell { value: minus_one, grad: zero, op: Op::Leaf },
                ).push(Cell { value: product, grad: zero, op: Op::Multiply(other, c) }).push(
                    Cell { value: sum, grad: zero, op: Op::Add(self, p) },
                )
                &&& answers(k)(Arith::Product(old(graph)@[other.index()].value, minus_one), product)
                &&& answers(k)(Arith::Sum(old(graph)@[self.index()].value, product), sum)
            }),
    {
        let minus_one = Node::new(graph.units.minus_one, graph);
        let negated = other.mul(minus_one, graph, k);
        self.add(negated, graph, k)
    }

    /// `self` times `self`: one new product cell whose two operands are this
    /// same node.
    pub fn square<S: Copy, K: Fn(Arith<S>) -> S>(&self, graph: &mut Graph<S>, k: &K) -> (r: Node)
        requires
            old(graph).wf(),
            old(graph).has(*self),
            serves(k, old(graph).units()),
        ensures
            final(graph).wf(),
            final(graph).units() == old(graph).units(),
            r.index() == old(graph)@.len(),
            final(graph)@ == old(graph)@.push(
                Cell {
                    value: final(graph)@[r.index()].value,
                    grad: old(graph).units().zero,
                    op: Op::Multiply(*self, *self),
                },
            ),
            answers(k)(Arith::Product(old(graph)@[self.index()].value, old(graph)@[self.index()].value),
                final(graph)@[r.index()].value,
            ),
    {
        self.mul(*self, graph, k)
    }

    /// A new node whose value is the kernel's hyperbolic tangent of this
    /// node's value.
    pub fn tanh<S: Copy, K: Fn(Arith<S>) -> S>(&self, graph: &mut Graph<S>, k: &K) -> (r: Node)
        requires
            old(graph).wf(),
            old(graph).has(*self),
            serves(k, old(graph).units()),
        ensures
            final(graph).wf(),
            final(graph).units() == old(graph).units(),
            r.index() == old(graph)@.len(),
            final(graph)@ == old(graph)@.push(
                Cell {
                    value: final(graph)@[r.index()].value,
                    grad: old(graph).units().zero,
                    op: Op::HyperbolicTangent(*self),
                },
            ),
            answers(k)(Arith::Tanh(old(graph)@[self.index()].value),
                final(graph)@[r.index()].value,
            ),
    {
        let value = k(Arith::Tanh(self.val(graph)));
        graph.grow(value, Op::HyperbolicTangent(*self))
    }
}

} // verus!

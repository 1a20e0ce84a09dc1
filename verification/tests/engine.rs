use scalar_grad::arith::{Arith, Units};
use scalar_grad::graph::{Graph, Node, Op};

fn kernel(req: Arith<f64>) -> f64 {
    match req {
        Arith::Sum(a, b) => a + b,
        Arith::Product(a, b) => a * b,
        Arith::Difference(a, b) => a - b,
        Arith::Tanh(a) => a.tanh(),
        Arith::Clamp(a, lo, hi) => a.clamp(lo, hi),
    }
}

fn graph() -> Graph<f64> {
    Graph::new(Units { zero: 0.0, one: 1.0, minus_one: -1.0 })
}

#[test]
fn new_graph_is_empty() {
    let g = graph();
    assert_eq!(g.len(), 0);
}

#[test]
fn constant_starts_with_zero_gradient() {
    let mut g = graph();
    let c = Node::new(5.0, &mut g);
    assert_eq!(c.val(&g), 5.0);
    assert_eq!(c.grad(&g), 0.0);
    assert_eq!(c.op(&g), Op::Leaf);
    assert_eq!(g.len(), 1);
}

#[test]
fn handles_count_up_from_zero() {
    let mut g = graph();
    let a = Node::new(1.5, &mut g);
    let b = Node::new(-2.5, &mut g);
    assert_eq!(a, Node(0));
    assert_eq!(b, Node(1));
    assert_eq!(a.val(&g), 1.5);
    assert_eq!(b.val(&g), -2.5);
}

#[test]
fn set_grad_overwrites() {
    let mut g = graph();
    let a = Node::new(2.0, &mut g);
    let b = Node::new(3.0, &mut g);
    a.set_grad(4.0, &mut g);
    a.set_grad(7.0, &mut g);
    assert_eq!(a.grad(&g), 7.0);
    assert_eq!(a.val(&g), 2.0);
    assert_eq!(b.grad(&g), 0.0);
}

#[test]
fn add_value_and_gradients() {
    let mut g = graph();
    let a = Node::new(2.0, &mut g);
    let b = Node::new(3.0, &mut g);
    let r = a.add(b, &mut g, &kernel);
    assert_eq!(r.val(&g), 5.0);
    assert_eq!(r.grad(&g), 0.0);
    assert_eq!(r.op(&g), Op::Add(a, b));
    r.set_grad(1.0, &mut g);
    r.backward_pass(&mut g, &kernel);
    assert_eq!(a.grad(&g), 1.0);
    assert_eq!(b.grad(&g), 1.0);
    assert_eq!(r.grad(&g), 1.0);
}

#[test]
fn multiply_value_and_gradients() {
    let mut g = graph();
    let a = Node::new(2.0, &mut g);
    let b = Node::new(3.0, &mut g);
    let r = a.mul(b, &mut g, &kernel);
    assert_eq!(r.val(&g), 6.0);
    assert_eq!(r.op(&g), Op::Multiply(a, b));
    r.set_grad(1.0, &mut g);
    r.backward_pass(&mut g, &kernel);
    assert_eq!(a.grad(&g), 3.0);
    assert_eq!(b.grad(&g), 2.0);
}

#[test]
fn square_value_and_gradient() {
    let mut g = graph();
    let a = Node::new(4.0, &mut g);
    let r = a.square(&mut g, &kernel);
    assert_eq!(r.val(&g), 16.0);
    assert_eq!(r.op(&g), Op::Multiply(a, a));
    assert_eq!(g.len(), 2);
    r.set_grad(1.0, &mut g);
    r.backward_pass(&mut g, &kernel);
    assert_eq!(a.grad(&g), 8.0);
}

#[test]
fn tanh_value_and_gradient() {
    let mut g = graph();
    let a = Node::new(0.0, &mut g);
    let r = a.tanh(&mut g, &kernel);
    assert_eq!(r.val(&g), 0.0);
    assert_eq!(r.op(&g), Op::HyperbolicTangent(a));
    r.set_grad(1.0, &mut g);
    r.backward_pass(&mut g, &kernel);
    assert_eq!(a.grad(&g), 1.0);
}

#[test]
fn tanh_slope_uses_the_forward_value() {
    let mut g = graph();
    let a = Node::new(0.5, &mut g);
    let r = a.tanh(&mut g, &kernel);
    let v = 0.5f64.tanh();
    assert_eq!(r.val(&g), v);
    r.set_grad(2.0, &mut g);
    r.backward_pass(&mut g, &kernel);
    assert_eq!(a.grad(&g), 0.0 + (1.0 - v * v) * 2.0);
}

#[test]
fn tanh_saturates_without_special_cases() {
    let mut g = graph();
    let a = Node::new(40.0, &mut g);
    let r = a.tanh(&mut g, &kernel);
    assert_eq!(r.val(&g), 1.0);
    r.set_grad(1.0, &mut g);
    r.backward_pass(&mut g, &kernel);
    assert_eq!(a.grad(&g), 0.0);
}

#[test]
fn subtract_is_add_of_negated_operand() {
    let mut g = graph();
    let a = Node::new(7.0, &mut g);
    let b = Node::new(2.5, &mut g);
    let r = a.sub(b, &mut g, &kernel);
    assert_eq!(g.len(), 5);
    assert_eq!(r, Node(4));
    assert_eq!(r.val(&g), 4.5);
    let minus_one = Node(2);
    let negated = Node(3);
    assert_eq!(minus_one.op(&g), Op::Leaf);
    assert_eq!(minus_one.val(&g), -1.0);
    assert_eq!(negated.op(&g), Op::Multiply(b, minus_one));
    assert_eq!(negated.val(&g), -2.5);
    assert_eq!(r.op(&g), Op::Add(a, negated));
    r.set_grad(1.0, &mut g);
    r.backward_pass(&mut g, &kernel);
    assert_eq!(a.grad(&g), 1.0);
    assert_eq!(b.grad(&g), -1.0);
    assert_eq!(minus_one.grad(&g), 2.5);
    assert_eq!(negated.grad(&g), 1.0);
}

#[test]
fn add_of_one_node_to_itself_receives_both_contributions() {
    let mut g = graph();
    let a = Node::new(3.0, &mut g);
    let r = a.add(a, &mut g, &kernel);
    assert_eq!(r.val(&g), 6.0);
    r.set_grad(1.0, &mut g);
    r.backward_pass(&mut g, &kernel);
    assert_eq!(a.grad(&g), 2.0);
}

#[test]
fn gradients_accumulate_on_top_of_what_is_there() {
    let mut g = graph();
    let a = Node::new(2.0, &mut g);
    let b = Node::new(3.0, &mut g);
    a.set_grad(10.0, &mut g);
    let r = a.mul(b, &mut g, &kernel);
    r.set_grad(0.5, &mut g);
    r.backward_pass(&mut g, &kernel);
    assert_eq!(a.grad(&g), 11.5);
    assert_eq!(b.grad(&g), 1.0);
}

#[test]
fn backward_pass_from_a_leaf_changes_nothing() {
    let mut g = graph();
    let a = Node::new(2.0, &mut g);
    let b = Node::new(3.0, &mut g);
    a.set_grad(1.0, &mut g);
    a.backward_pass(&mut g, &kernel);
    assert_eq!(a.grad(&g), 1.0);
    assert_eq!(b.grad(&g), 0.0);
    assert_eq!(a.val(&g), 2.0);
    assert_eq!(g.len(), 2);
}

#[test]
fn backward_pass_keeps_values_and_operations() {
    let mut g = graph();
    let a = Node::new(2.0, &mut g);
    let b = Node::new(3.0, &mut g);
    let p = a.mul(b, &mut g, &kernel);
    let r = p.tanh(&mut g, &kernel);
    r.set_grad(1.0, &mut g);
    r.backward_pass(&mut g, &kernel);
    assert_eq!(a.val(&g), 2.0);
    assert_eq!(b.val(&g), 3.0);
    assert_eq!(p.val(&g), 6.0);
    assert_eq!(r.val(&g), 6.0f64.tanh());
    assert_eq!(p.op(&g), Op::Multiply(a, b));
    assert_eq!(r.op(&g), Op::HyperbolicTangent(p));
    assert_eq!(r.grad(&g), 1.0);
    assert_eq!(g.len(), 4);
}

#[test]
fn chain_gradient_is_the_product_of_local_slopes() {
    let mut g = graph();
    let w = Node::new(0.5, &mut g);
    let x = Node::new(-1.5, &mut g);
    let b = Node::new(0.25, &mut g);
    let p = w.mul(x, &mut g, &kernel);
    let s = p.add(b, &mut g, &kernel);
    let o = s.tanh(&mut g, &kernel);
    o.set_grad(1.0, &mut g);
    o.backward_pass(&mut g, &kernel);
    let v = (0.5f64 * -1.5 + 0.25).tanh();
    let slope = (1.0 - v * v) * 1.0;
    assert_eq!(s.grad(&g), slope);
    assert_eq!(p.grad(&g), slope);
    assert_eq!(b.grad(&g), slope);
    assert_eq!(w.grad(&g), -1.5 * slope);
    assert_eq!(x.grad(&g), 0.5 * slope);
}

#[test]
fn shared_inner_node_is_visited_once() {
    // r = p * p with p = a * b: the rule of p is applied once, when both
    // contributions of r have arrived.
    let mut g = graph();
    let a = Node::new(2.0, &mut g);
    let b = Node::new(3.0, &mut g);
    let p = a.mul(b, &mut g, &kernel);
    let r = p.square(&mut g, &kernel);
    assert_eq!(r.val(&g), 36.0);
    r.set_grad(1.0, &mut g);
    r.backward_pass(&mut g, &kernel);
    assert_eq!(p.grad(&g), 12.0);
    assert_eq!(a.grad(&g), 3.0 * 12.0);
    assert_eq!(b.grad(&g), 2.0 * 12.0);
}

#[test]
fn sum_of_a_shared_product_gives_the_gradient_of_four_x() {
    let mut g = graph();
    let x = Node::new(3.0, &mut g);
    let two = Node::new(2.0, &mut g);
    let y = x.mul(two, &mut g, &kernel);
    let r = y.add(y, &mut g, &kernel);
    assert_eq!(r.val(&g), 12.0);
    r.set_grad(1.0, &mut g);
    r.backward_pass(&mut g, &kernel);
    assert_eq!(r.grad(&g), 1.0);
    assert_eq!(y.grad(&g), 2.0);
    assert_eq!(x.grad(&g), 4.0);
    assert_eq!(two.grad(&g), 6.0);
}

#[test]
fn node_used_by_two_later_cells_collects_both_before_passing_on() {
    // d = a + b is used by p = d * c and by q = tanh(d); r = p + q.
    let mut g = graph();
    let a = Node::new(0.25, &mut g);
    let b = Node::new(0.5, &mut g);
    let c = Node::new(3.0, &mut g);
    let d = a.add(b, &mut g, &kernel);
    let p = d.mul(c, &mut g, &kernel);
    let q = d.tanh(&mut g, &kernel);
    let r = p.add(q, &mut g, &kernel);
    r.set_grad(1.0, &mut g);
    r.backward_pass(&mut g, &kernel);
    let t = 0.75f64.tanh();
    let slope = (1.0 - t * t) * 1.0;
    // The pass takes q before p, the later cell first.
    let into_d = 0.0 + slope + 3.0 * 1.0;
    assert_eq!(d.grad(&g), into_d);
    assert_eq!(a.grad(&g), into_d);
    assert_eq!(b.grad(&g), into_d);
    assert_eq!(c.grad(&g), 0.75);
}

#[test]
fn cells_that_the_start_does_not_depend_on_are_left_alone() {
    let mut g = graph();
    let a = Node::new(2.0, &mut g);
    let b = Node::new(3.0, &mut g);
    let side = a.mul(b, &mut g, &kernel);
    side.set_grad(7.0, &mut g);
    let c = Node::new(5.0, &mut g);
    let r = b.mul(c, &mut g, &kernel);
    let later = r.tanh(&mut g, &kernel);
    later.set_grad(9.0, &mut g);
    r.set_grad(1.0, &mut g);
    r.backward_pass(&mut g, &kernel);
    assert_eq!(a.grad(&g), 0.0);
    assert_eq!(b.grad(&g), 5.0);
    assert_eq!(c.grad(&g), 3.0);
    assert_eq!(side.grad(&g), 7.0);
    assert_eq!(later.grad(&g), 9.0);
}

#[test]
fn release_cuts_the_graph_back_to_the_mark() {
    let mut g = graph();
    let a = Node::new(2.0, &mut g);
    a.set_grad(3.0, &mut g);
    let mark = g.len();
    let b = Node::new(3.0, &mut g);
    let _r = a.mul(b, &mut g, &kernel);
    assert_eq!(g.len(), 3);
    g.release(mark);
    assert_eq!(g.len(), 1);
    assert_eq!(a.val(&g), 2.0);
    assert_eq!(a.grad(&g), 3.0);
    let c = Node::new(9.0, &mut g);
    assert_eq!(c, Node(1));
    assert_eq!(c.grad(&g), 0.0);
}

#[test]
fn release_beyond_the_end_changes_nothing() {
    let mut g = graph();
    let a = Node::new(2.0, &mut g);
    g.release(5);
    assert_eq!(g.len(), 1);
    assert_eq!(a.val(&g), 2.0);
    g.release(1);
    assert_eq!(g.len(), 1);
    g.release(0);
    assert_eq!(g.len(), 0);
}

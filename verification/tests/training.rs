use rand::rngs::StdRng;
use rand::seq::SliceRandom;
use rand::{Rng, SeedableRng};
use scalar_grad::arith::{Arith, Units};
use scalar_grad::graph::{Graph, Node};
use scalar_grad::mlp::MLP;
use std::cell::RefCell;

fn kernel(req: Arith<f64>) -> f64 {
    match req {
        Arith::Sum(a, b) => a + b,
        Arith::Product(a, b) => a * b,
        Arith::Difference(a, b) => a - b,
        Arith::Tanh(a) => a.tanh(),
        Arith::Clamp(a, lo, hi) => a.clamp(lo, hi),
    }
}

fn graph() -> Graph<f64> {
    Graph::new(Units { zero: 0.0, one: 1.0, minus_one: -1.0 })
}

/// Builds `(tanh(w * x + b) - target)^2` and returns the loss node and the
/// node of `w`.
fn loss_of(w: f64, x: f64, b: f64, target: f64, g: &mut Graph<f64>) -> (Node, Node) {
    let w = Node::new(w, g);
    let x = Node::new(x, g);
    let b = Node::new(b, g);
    let target = Node::new(target, g);
    let out = w.mul(x, g, &kernel).add(b, g, &kernel).tanh(g, &kernel);
    let loss = out.sub(target, g, &kernel).square(g, &kernel);
    (loss, w)
}

#[test]
fn composite_gradient_matches_finite_differences() {
    let mut rng = StdRng::seed_from_u64(11);
    for _ in 0..100 {
        let w: f64 = rng.gen_range(-1.0..1.0);
        let x: f64 = rng.gen_range(-1.0..1.0);
        let b: f64 = rng.gen_range(-1.0..1.0);
        let target: f64 = rng.gen_range(-1.0..1.0);

        let mut g = graph();
        let (loss, w_node) = loss_of(w, x, b, target, &mut g);
        let out = (w * x + b).tanh();
        assert!((loss.val(&g) - (out - target) * (out - target)).abs() < 1e-12);
        loss.set_grad(1.0, &mut g);
        loss.backward_pass(&mut g, &kernel);

        let analytic = 2.0 * (out - target) * (1.0 - out * out) * x;
        let h = 1e-5;
        let mut up = graph();
        let (loss_up, _) = loss_of(w + h, x, b, target, &mut up);
        let mut down = graph();
        let (loss_down, _) = loss_of(w - h, x, b, target, &mut down);
        let estimate = (loss_up.val(&up) - loss_down.val(&down)) / (2.0 * h);
        assert!((w_node.grad(&g) - analytic).abs() < 1e-4);
        assert!((w_node.grad(&g) - estimate).abs() < 1e-4);
        assert!((w_node.grad(&g) - analytic).abs() < 1e-12);
    }
}

#[test]
fn composite_gradient_at_a_point_worked_by_hand() {
    // w = 0, x = 1, b = 0, target = -1: the output is 0, the difference 1,
    // the slope of tanh 1, so the loss has gradient 2 in w.
    let mut g = graph();
    let (loss, w) = loss_of(0.0, 1.0, 0.0, -1.0, &mut g);
    assert_eq!(loss.val(&g), 1.0);
    loss.set_grad(1.0, &mut g);
    loss.backward_pass(&mut g, &kernel);
    assert_eq!(w.grad(&g), 2.0);
}

#[test]
fn spiral_training_beats_chance() {
    let n_points = 100;
    let noise = 0.1;
    let mut rng = StdRng::seed_from_u64(3);
    let mut data: Vec<(f64, f64, f64)> = Vec::new();
    for i in 0..n_points {
        let r = i as f64 / n_points as f64;
        let t = i as f64 * 4.0;
        let x1 = r * t.cos() + rng.gen_range(-noise..noise);
        let y1 = r * t.sin() + rng.gen_range(-noise..noise);
        data.push((x1, y1, 0.0));
        let x2 = r * (t + std::f64::consts::PI).cos() + rng.gen_range(-noise..noise);
        let y2 = r * (t + std::f64::consts::PI).sin() + rng.gen_range(-noise..noise);
        data.push((x2, y2, 1.0));
    }

    let mut g = graph();
    let weights = RefCell::new(StdRng::seed_from_u64(1003));
    let draw = || weights.borrow_mut().gen_range(-0.1..0.1);
    let mlp = MLP::new(2, vec![16, 8, 1], &mut g, &draw);
    let mark = g.len();
    assert_eq!(mark, 16 * 3 + 8 * 17 + 9);

    let initial_learning_rate = 0.03;
    for epoch in 0..200 {
        let learning_rate = initial_learning_rate / (1.0 + epoch as f64 * 0.001);
        let mut indices: Vec<usize> = (0..data.len()).collect();
        indices.shuffle(&mut rng);
        for idx in indices {
            let (x, y, target) = data[idx];
            let inputs = vec![Node::new(x, &mut g), Node::new(y, &mut g)];
            let outputs = mlp.forward(inputs, &mut g, &kernel).unwrap();
            let expected = Node::new(target, &mut g);
            let loss = outputs[0].sub(expected, &mut g, &kernel).square(&mut g, &kernel);
            loss.set_grad(1.0, &mut g);
            loss.backward_pass(&mut g, &kernel);
            mlp.update_params(learning_rate, &mut g, &kernel);
            mlp.zero_grad(&mut g);
            g.release(mark);
        }
    }

    let mut correct = 0;
    for (x, y, target) in data.iter() {
        let inputs = vec![Node::new(*x, &mut g), Node::new(*y, &mut g)];
        let outputs = mlp.forward(inputs, &mut g, &kernel).unwrap();
        let predicted = if outputs[0].val(&g) > 0.5 { 1.0 } else { 0.0 };
        if (predicted - target).abs() < 1e-5 {
            correct += 1;
        }
        g.release(mark);
    }
    let accuracy = correct as f64 / data.len() as f64;
    assert!(accuracy > 0.5, "accuracy {}", accuracy);
}

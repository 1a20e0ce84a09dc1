//! Reverse-mode automatic differentiation over scalars, and a small
//! feed-forward network built on it.
//!
//! The computation graph lives in an arena ([`graph::Graph`]) whose cells are
//! addressed by [`graph::Node`] handles. The engine is generic in the scalar
//! type and performs no arithmetic of its own: every sum, product, difference,
//! hyperbolic tangent and clamp is a request ([`arith::Arith`]) to a kernel
//! that the caller supplies. Contracts state values relative to what that
//! kernel guarantees of its answers.

pub mod arith;
pub mod backward;
pub mod graph;
pub mod layer;
pub mod mlp;
pub mod neuron;

//! The arithmetic that the engine asks of its caller.

use vstd::prelude::*;

verus! {

/// One arithmetic request. A kernel is any `Fn(Arith<S>) -> S`; the operands
/// stand in the order in which the engine's rules name them.
#[derive(Debug)]
pub enum Arith<S> {
    /// `.0 + .1`
    Sum(S, S),
    /// `.0 * .1`
    Product(S, S),
    /// `.0 - .1`
    Difference(S, S),
    /// The hyperbolic tangent of `.0`.
    Tanh(S),
    /// `.0` limited to the closed range from `.1` to `.2`.
    Clamp(S, S, S),
}

/// The scalars that the engine's rules mention by name. The engine never
/// inspects them; it stores and passes on what the caller designates.
#[derive(Debug)]
pub struct Units<S> {
    pub zero: S,
    pub one: S,
    pub minus_one: S,
}

/// What kernel `k` guarantees, as a relation between a request and an answer:
/// `answers(k)(req, r)` says that `r` is an answer that `k` may give to `req`.
pub open spec fn answers<S, K: Fn(Arith<S>) -> S>(k: &K) -> spec_fn(Arith<S>, S) -> bool {
    |req: Arith<S>, r: S| k.ensures((req,), r)
}

/// Kernel `k` accepts every request that the engine can make with the units
/// `u`: all sums, products, differences and hyperbolic tangents, and every
/// clamp to the range from `u.minus_one` to `u.one`.
pub open spec fn serves<S, K: Fn(Arith<S>) -> S>(k: &K, u: Units<S>) -> bool {
    forall|req: Arith<S>|
        (req matches Arith::Clamp(_, lo, hi) ==> lo == u.minus_one && hi == u.one)
            ==> #[trigger] k.requires((req,))
}

} // verus!

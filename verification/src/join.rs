//! The choice between single-threaded and multi-threaded recursion.
//!
//! `Join` has the shape of `rayon::join`, plus the lengths of the two
//! sides, which an implementation may use to keep small splits on one
//! thread. `SerialJoin` runs the two sides one after the other on the
//! calling thread; `RayonJoin` runs them on the Rayon thread pool,
//! potentially in parallel.

use vstd::prelude::*;

verus! {

/// Runs two closures, potentially in parallel, and returns both results.
pub trait Join {
    fn join<A, B, RA, RB>(oper_a: A, oper_b: B, len_a: usize, len_b: usize) -> (r: (RA, RB)) where
        A: FnOnce() -> RA + Send,
        B: FnOnce() -> RB + Send,
        RA: Send,
        RB: Send,
        requires
            call_requires(oper_a, ()),
            call_requires(oper_b, ()),
        ensures
            call_ensures(oper_a, (), r.0),
            call_ensures(oper_b, (), r.1),
    ;
}

/// The serial implementation of `Join`: the left side, then the right side,
/// on the calling thread.
pub struct SerialJoin;

impl Join for SerialJoin {
    fn join<A, B, RA, RB>(oper_a: A, oper_b: B, len_a: usize, len_b: usize) -> (r: (RA, RB)) where
        A: FnOnce() -> RA + Send,
        B: FnOnce() -> RB + Send,
        RA: Send,
        RB: Send,
    {
        (oper_a(), oper_b())
    }
}

/// The Rayon implementation of `Join`: both sides run on the Rayon thread
/// pool, potentially in parallel.
pub struct RayonJoin;

impl Join for RayonJoin {
    fn join<A, B, RA, RB>(oper_a: A, oper_b: B, len_a: usize, len_b: usize) -> (r: (RA, RB)) where
        A: FnOnce() -> RA + Send,
        B: FnOnce() -> RB + Send,
        RA: Send,
        RB: Send,
    {
        rayon_join(oper_a, oper_b)
    }
}

/// `rayon::join`: runs both closures, potentially in parallel, each exactly
/// once, and returns the pair of their results. (When a closure panics, the
/// panic is passed on after both have finished; the closures here are
/// verified not to panic.)
#[verifier::external_body]
pub(crate) fn rayon_join<A, B, RA, RB>(oper_a: A, oper_b: B) -> (r: (RA, RB)) where
    A: FnOnce() -> RA + Send,
    B: FnOnce() -> RB + Send,
    RA: Send,
    RB: Send,
    requires
        call_requires(oper_a, ()),
        call_requires(oper_b, ()),
    ensures
        call_ensures(oper_a, (), r.0),
        call_ensures(oper_b, (), r.1),
{
    rayon::join(oper_a, oper_b)
}

} // verus!

//! A patient-similarity graph library.
//!
//! Per-patient attribute records are compared pairwise by a configurable
//! similarity metric; pairs within a threshold become edges of a graph.
//! The graph exposes structural queries (shortest distances, connected
//! components, edge density, clustering coefficient) and a neighbor-majority
//! heuristic that predicts a binary clinical outcome.

pub mod builder;
pub mod graph;
pub mod paths;
pub mod ratio;

use vstd::prelude::*;

verus! {

/// Largest node count any graph of this library may hold; keeps every
/// aggregate (distance sums, degree sums, pair counts) inside `u64`.
pub const MAX_NODES: usize = 1048576;

/// Failure of a query that names a node the graph does not hold.
#[derive(Clone, Copy, Debug, PartialEq, Eq, Structural)]
pub enum GraphError {
    NotFound,
}

/// Exact ratio of two machine integers; the library's substitute for an
/// inexact floating-point quotient. `den` is zero only in a degenerate
/// value that no well-formed operation produces.
#[derive(Clone, Copy, Debug, PartialEq, Eq, Structural)]
pub struct Ratio {
    pub num: u64,
    pub den: u64,
}

/// Two ratios denote the same rational number (cross multiplication).
pub open spec fn rat_eq(n1: int, d1: int, n2: int, d2: int) -> bool {
    n1 * d2 == n2 * d1
}

impl Ratio {
    pub fn new(num: u64, den: u64) -> (r: Ratio)
        ensures
            r.num == num && r.den == den,
    {
        Ratio { num, den }
    }
}

/// Exact comparison `c / t > p / d` by cross multiplication, free of
/// overflow and of rounding.
pub(crate) fn cross_gt(c: u64, d: u64, p: u64, t: u64) -> (b: bool)
    ensures
        b == ((c as int) * (d as int) > (p as int) * (t as int)),
{
    proof {
        assert((c as int) * (d as int) <= u64::MAX as int * u64::MAX as int) by (nonlinear_arith)
            requires
                c <= u64::MAX && d <= u64::MAX,
        ;
        assert((p as int) * (t as int) <= u64::MAX as int * u64::MAX as int) by (nonlinear_arith)
            requires
                p <= u64::MAX && t <= u64::MAX,
        ;
    }
    (c as u128) * (d as u128) > (p as u128) * (t as u128)
}

/// Exact comparison `c / t >= p / d` by cross multiplication.
pub(crate) fn cross_ge(c: u64, d: u64, p: u64, t: u64) -> (b: bool)
    ensures
        b == ((c as int) * (d as int) >= (p as int) * (t as int)),
{
    proof {
        assert((c as int) * (d as int) <= u64::MAX as int * u64::MAX as int) by (nonlinear_arith)
            requires
                c <= u64::MAX && d <= u64::MAX,
        ;
        assert((p as int) * (t as int) <= u64::MAX as int * u64::MAX as int) by (nonlinear_arith)
            requires
                p <= u64::MAX && t <= u64::MAX,
        ;
    }
    (c as u128) * (d as u128) >= (p as u128) * (t as u128)
}

} // verus!

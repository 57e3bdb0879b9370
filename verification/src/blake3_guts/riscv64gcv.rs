//! The RISC-V vector backend: as many inputs side by side as the vector
//! length allows, at most sixteen.

use crate::blake3_guts::{Implementation, MAX_SIMD_DEGREE};
use vstd::prelude::*;

verus! {

/// The largest number of inputs this backend takes side by side.
pub const MAX_DEGREE: usize = 16;

/// The RISC-V vector kernels.
pub fn implementation() -> (i: Implementation)
    ensures
        i.degree_spec() == MAX_DEGREE,
{
    Implementation::with_degree(MAX_DEGREE)
}

} // verus!

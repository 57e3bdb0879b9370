//! The AVX-512 backend: sixteen inputs side by side.

use crate::blake3_guts::{Implementation, MAX_SIMD_DEGREE};
use vstd::prelude::*;

verus! {

/// The number of inputs this backend takes side by side.
pub const DEGREE: usize = 16;

/// The AVX-512 kernels, when the CPU supports them (AVX-512F and
/// AVX-512VL, which the caller detects).
pub fn implementation(supported: bool) -> (i: Option<Implementation>)
    ensures
        supported <==> i is Some,
        supported ==> i.unwrap().degree_spec() == DEGREE,
{
    if supported {
        Some(Implementation::with_degree(DEGREE))
    } else {
        None
    }
}

} // verus!

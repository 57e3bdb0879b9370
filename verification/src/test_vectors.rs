//! The official test vectors: the input lengths they cover, the key they
//! use, how their inputs are painted, and the shape of a case.

use crate::CHUNK_LEN;
use vstd::prelude::*;

verus! {

/// Interesting input lengths: around chunk boundaries, and up to 31 chunks
/// (16 + 8 + 4 + 2 + 1).
pub const TEST_CASES: [usize; 21] = [
    0,
    1,
    CHUNK_LEN - 1,
    CHUNK_LEN,
    CHUNK_LEN + 1,
    2 * CHUNK_LEN,
    2 * CHUNK_LEN + 1,
    3 * CHUNK_LEN,
    3 * CHUNK_LEN + 1,
    4 * CHUNK_LEN,
    4 * CHUNK_LEN + 1,
    5 * CHUNK_LEN,
    5 * CHUNK_LEN + 1,
    6 * CHUNK_LEN,
    6 * CHUNK_LEN + 1,
    7 * CHUNK_LEN,
    7 * CHUNK_LEN + 1,
    8 * CHUNK_LEN,
    8 * CHUNK_LEN + 1,
    16 * CHUNK_LEN,
    31 * CHUNK_LEN,
];

/// The key of the keyed test vectors: "whats the Elvish word for friend".
pub const TEST_KEY: [u8; 32] = [
    119, 104, 97, 116, 115, 32, 116, 104, 101, 32, 69, 108, 118, 105, 115, 104, 32, 119, 111, 114,
    100, 32, 102, 111, 114, 32, 102, 114, 105, 101, 110, 100,
];

/// Paint the input with a repeating byte pattern of length 251, the largest
/// prime below 256, so that swapping two blocks or chunks is unlikely to
/// give the same hash.
pub fn paint_test_input(buf: &mut [u8])
    ensures
        final(buf)@.len() == old(buf)@.len(),
        forall|i: int| 0 <= i < final(buf)@.len() ==> #[trigger] final(buf)@[i] == i % 251,
{
    let n: usize = buf.len();
    let mut i: usize = 0;
    while i < n
        invariant
            i <= n,
            n == buf@.len(),
            forall|k: int| 0 <= k < i ==> #[trigger] buf@[k] == k % 251,
        decreases n - i,
    {
        buf[i] = (i % 251) as u8;
        i += 1;
    }
}

/// The test vectors file: a comment, the key, and the cases.
pub struct Cases {
    pub _comment: String,
    pub key: String,
    pub cases: Vec<Case>,
}

/// One test vector: the input length, and the hex of the extended output of
/// each mode.
pub struct Case {
    pub input_len: usize,
    pub hash: String,
    pub keyed_hash: String,
    pub derive_key: String,
}

} // verus!

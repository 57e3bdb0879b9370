//! The mathematical model of BLAKE3: chunks, the Merkle tree over them, the
//! root hash and the extended output stream.

use crate::platform::bytes_of;
use crate::portable::{compress_cv, compress_xof_bytes};
use crate::{BLOCK_LEN, CHUNK_END, CHUNK_LEN, CHUNK_START, PARENT, ROOT};
use vstd::prelude::*;

verus! {

/// A node just before the choice between a chaining value and root output:
/// the input chaining value, the (zero-padded) block, its length, the
/// counter and the flags.
pub struct OutputModel {
    pub cv: Seq<u32>,
    pub block: Seq<u8>,
    pub block_len: u8,
    pub counter: u64,
    pub flags: u8,
}

/// The chaining value of a non-root node.
pub open spec fn output_cv(o: OutputModel) -> Seq<u32> {
    compress_cv(o.cv, o.block, o.block_len as u32, o.counter, o.flags as u32)
}

/// The 32-byte hash of a root node.
pub open spec fn root_hash_bytes(o: OutputModel) -> Seq<u8> {
    bytes_of(compress_cv(o.cv, o.block, o.block_len as u32, 0, (o.flags | ROOT) as u32))
}

/// Block number `c` of the extended output of a root node.
pub open spec fn xof_block(o: OutputModel, c: u64) -> Seq<u8> {
    compress_xof_bytes(o.cv, o.block, o.block_len as u32, c, (o.flags | ROOT) as u32)
}

/// Byte number `i` of the extended output of a root node.
pub open spec fn xof_byte(o: OutputModel, i: nat) -> u8 {
    xof_block(o, (i / 64) as u64)[(i % 64) as int]
}

/// `len` bytes of the extended output of a root node, from position `pos`.
pub open spec fn xof_stream(o: OutputModel, pos: nat, len: nat) -> Seq<u8> {
    Seq::new(len, |j: int| xof_byte(o, (pos + j) as nat))
}

/// A block padded with zeros to 64 bytes.
pub open spec fn pad_block(b: Seq<u8>) -> Seq<u8> {
    Seq::new(BLOCK_LEN as nat, |i: int| if i < b.len() { b[i] } else { 0u8 })
}

/// How many blocks of a chunk of `n` bytes are compressed before its last
/// block: the last block is never empty unless the whole chunk is.
pub open spec fn blocks_before_last(n: nat) -> nat {
    if n == 0 {
        0
    } else {
        ((n - 1) / 64) as nat
    }
}

/// `CHUNK_START` for the first block of a chunk, else nothing.
pub open spec fn start_flag(k: nat) -> u8 {
    if k == 0 {
        CHUNK_START
    } else {
        0
    }
}

/// The chaining value inside a chunk after its first `k` blocks.
pub open spec fn chunk_cv_after(key: Seq<u32>, input: Seq<u8>, counter: u64, flags: u8, k: nat) -> Seq<
    u32,
>
    decreases k,
{
    if k == 0 {
        key
    } else {
        compress_cv(
            chunk_cv_after(key, input, counter, flags, (k - 1) as nat),
            input.subrange(64 * (k - 1), (64 * k) as int),
            BLOCK_LEN as u32,
            counter,
            (flags | start_flag((k - 1) as nat)) as u32,
        )
    }
}

/// The output node of one chunk (at most 1024 bytes).
pub open spec fn chunk_output(key: Seq<u32>, input: Seq<u8>, counter: u64, flags: u8) -> OutputModel {
    let k = blocks_before_last(input.len());
    OutputModel {
        cv: chunk_cv_after(key, input, counter, flags, k),
        block: pad_block(input.subrange((64 * k) as int, input.len() as int)),
        block_len: (input.len() - 64 * k) as u8,
        counter,
        flags: flags | start_flag(k) | CHUNK_END,
    }
}

/// The largest power of two not above `n` (1 for `n` = 0).
pub open spec fn pow2_floor(n: nat) -> nat
    decreases n,
{
    if n <= 1 {
        1
    } else {
        2 * pow2_floor(n / 2)
    }
}

/// The number of bytes in the left subtree of an input of more than one
/// chunk: the largest power-of-two number of chunks leaving at least one byte
/// on the right.
pub open spec fn left_len_spec(len: nat) -> nat {
    pow2_floor(((len - 1) / (CHUNK_LEN as int)) as nat) * CHUNK_LEN as nat
}

/// A parent node over two child chaining values.
pub open spec fn parent_output(left: Seq<u32>, right: Seq<u32>, key: Seq<u32>, flags: u8) -> OutputModel {
    OutputModel {
        cv: key,
        block: bytes_of(left) + bytes_of(right),
        block_len: BLOCK_LEN as u8,
        counter: 0,
        flags: flags | PARENT,
    }
}

/// The root node of the tree over `input`, whose first chunk has number
/// `counter`.
pub open spec fn subtree_output(key: Seq<u32>, input: Seq<u8>, counter: nat, flags: u8) -> OutputModel
    decreases input.len(),
{
    if input.len() <= CHUNK_LEN {
        chunk_output(key, input, counter as u64, flags)
    } else {
        let l = left_len_spec(input.len());
        if 0 < l < input.len() {
            parent_output(
                output_cv(subtree_output(key, input.subrange(0, l as int), counter, flags)),
                output_cv(
                    subtree_output(
                        key,
                        input.subrange(l as int, input.len() as int),
                        counter + l / CHUNK_LEN as nat,
                        flags,
                    ),
                ),
                key,
                flags,
            )
        } else {
            chunk_output(key, input, counter as u64, flags)
        }
    }
}

/// The chaining value of the subtree over `input`.
pub open spec fn subtree_cv(key: Seq<u32>, input: Seq<u8>, counter: nat, flags: u8) -> Seq<u32> {
    output_cv(subtree_output(key, input, counter, flags))
}

} // verus!

verus! {

/// The tree over an input whose first chunk is chunk 0 has a root node with
/// counter 0.
pub proof fn lemma_subtree_counter_zero(key: Seq<u32>, input: Seq<u8>, flags: u8)
    ensures
        subtree_output(key, input, 0, flags).counter == 0,
{
}

} // verus!

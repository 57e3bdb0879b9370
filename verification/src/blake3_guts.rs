//! A backend-neutral interface to the BLAKE3 kernels: an `Implementation`
//! per backend, kernels that hash chunks and parent nodes into transposed
//! chaining values (word `w` of each value in row `w`, one value per
//! column), and the extended-output and universal-hash kernels. Every
//! backend in this library runs the portable kernels; backends differ in
//! the number of inputs they take side by side.

use crate::model::pad_block;
use crate::platform::{bytes_of, rows_column, Platform};
use crate::portable::{compress_cv, compress_xof_bytes, xof_output_byte};
use crate::tree::{chunk_end, num_chunks};
use vstd::prelude::*;

pub mod avx512;
pub mod riscv64gcv;

verus! {

pub const BLOCK_LEN: usize = 64;

pub const CHUNK_LEN: usize = 1024;

pub const WORD_LEN: usize = 4;

pub const UNIVERSAL_HASH_LEN: usize = 16;

pub const CHUNK_START: u32 = 1;

pub const CHUNK_END: u32 = 2;

pub const PARENT: u32 = 4;

pub const ROOT: u32 = 8;

pub const KEYED_HASH: u32 = 16;

pub const DERIVE_KEY_CONTEXT: u32 = 32;

pub const DERIVE_KEY_MATERIAL: u32 = 64;

pub const IV: [u32; 8] = crate::IV;

/// The largest number of inputs any backend takes side by side.
pub const MAX_SIMD_DEGREE: usize = 16;

/// Chaining values stored transposed, `2 * MAX_SIMD_DEGREE` columns, and
/// the number of columns in use.
#[derive(Clone, Copy)]
pub struct TransposedVectors {
    pub vectors: [[u32; 32]; 8],
    pub len: usize,
}

impl TransposedVectors {
    /// No chaining values, every word zero.
    pub fn new() -> (t: Self)
        ensures
            t.len == 0,
            forall|c: int| 0 <= c < 32 ==> #[trigger] rows_column(t.vectors, c) == Seq::new(8, |w: int| 0u32),
    {
        let t = TransposedVectors { vectors: [[0u32; 32]; 8], len: 0 };
        assert forall|c: int| 0 <= c < 32 implies #[trigger] rows_column(t.vectors, c) == Seq::new(8, |w: int| 0u32) by {
            assert(rows_column(t.vectors, c) =~= Seq::new(8, |w: int| 0u32));
        }
        t
    }
}

/// Where a kernel writes its chaining values: the first column of one half
/// of a set of transposed vectors.
#[derive(Clone, Copy)]
pub struct TransposedSplit {
    column: usize,
}

impl TransposedSplit {
    /// The first column written.
    pub closed spec fn column_spec(self) -> nat {
        self.column as nat
    }
}

/// A set of kernels, with the number of inputs they take side by side.
#[derive(Clone, Copy)]
pub struct Implementation {
    degree: usize,
}

/// The flags of every block of a universal hash.
pub open spec fn uh_flags() -> u32 {
    KEYED_HASH | CHUNK_START | CHUNK_END | ROOT
}

/// The first 16 output bytes of block `i` of a universal hash: the block
/// zero-padded to a full block, with counter `counter + i`.
pub open spec fn uh_block(input: Seq<u8>, key: Seq<u32>, counter: u64, i: nat) -> Seq<u8> {
    let start = 64int * i;
    let end = if 64int * i + 64 < input.len() {
        64int * i + 64
    } else {
        input.len() as int
    };
    compress_xof_bytes(key, pad_block(input.subrange(start, end)), 64, (counter + i) as u64, uh_flags()).subrange(0, 16)
}

/// The XOR of the first `k` blocks' outputs.
pub open spec fn uh_acc(input: Seq<u8>, key: Seq<u32>, counter: u64, k: nat) -> Seq<u8>
    decreases k,
{
    if k == 0 {
        Seq::new(16, |i: int| 0u8)
    } else {
        let prev = uh_acc(input, key, counter, (k - 1) as nat);
        let b = uh_block(input, key, counter, (k - 1) as nat);
        Seq::new(16, |i: int| prev[i] ^ b[i])
    }
}

/// The universal hash of `input`: the XOR of the first 16 output bytes of
/// each of its blocks (none for empty input), each compressed as a full
/// keyed root chunk.
pub open spec fn universal_hash_spec(input: Seq<u8>, key: Seq<u32>, counter: u64) -> Seq<u8> {
    uh_acc(input, key, counter, ((input.len() + 63) / 64) as nat)
}

impl Implementation {
    #[verifier::type_invariant]
    spec fn degree_in_range(self) -> bool {
        1 <= self.degree <= MAX_SIMD_DEGREE
    }

    /// The number of inputs the kernels take side by side.
    pub closed spec fn degree_spec(self) -> nat {
        self.degree as nat
    }

    /// The kernels that take `degree` inputs side by side.
    pub(crate) fn with_degree(degree: usize) -> (i: Self)
        requires
            1 <= degree <= MAX_SIMD_DEGREE,
        ensures
            i.degree_spec() == degree,
    {
        Implementation { degree }
    }

    /// The portable kernels, which take any number of inputs up to
    /// `MAX_SIMD_DEGREE`.
    pub fn portable() -> (i: Self)
        ensures
            i.degree_spec() == MAX_SIMD_DEGREE,
    {
        Implementation { degree: MAX_SIMD_DEGREE }
    }

    /// The number of inputs the kernels take side by side.
    pub fn degree(&self) -> (d: usize)
        ensures
            d == self.degree_spec(),
            1 <= d <= MAX_SIMD_DEGREE,
    {
        proof {
            use_type_invariant(self);
        }
        self.degree
    }

    /// The two halves of a set of transposed vectors: the left one from
    /// column 0, the right one from column `degree`.
    pub fn split_transposed_vectors(&self, vectors: &mut [[u32; 32]; 8]) -> (r: (TransposedSplit, TransposedSplit))
        ensures
            r.0.column_spec() == 0,
            r.1.column_spec() == self.degree_spec(),
            *final(vectors) == *old(vectors),
    {
        (TransposedSplit { column: 0 }, TransposedSplit { column: self.degree() })
    }

    /// The new chaining value of one compression.
    pub fn compress(&self, block: &[u8; 64], block_len: u32, cv: &[u32; 8], counter: u64, flags: u32) -> (r: [u32; 8])
        ensures
            r@ == compress_cv(cv@, block@, block_len, counter, flags),
    {
        crate::portable::compress_cv_words(cv, block, block_len, counter, flags)
    }

    /// The 64 extended-output bytes of one compression.
    pub fn compress_xof(&self, block: &[u8; 64], block_len: u32, cv: &[u32; 8], counter: u64, flags: u32) -> (r: [u8;
        64])
        ensures
            r@ == compress_xof_bytes(cv@, block@, block_len, counter, flags),
    {
        crate::portable::compress_xof_words(cv, block, block_len, counter, flags)
    }

    /// Hash up to `degree` chunks, the last one possibly short, numbered
    /// from `counter`, and store their chaining values from the split's
    /// column on. Returns the number of chunks.
    pub fn hash_chunks(
        &self,
        input: &[u8],
        key: &[u32; 8],
        counter: u64,
        flags: u32,
        vectors: &mut [[u32; 32]; 8],
        transposed_output: TransposedSplit,
    ) -> (n: usize)
        requires
            0 < input@.len() <= self.degree_spec() * CHUNK_LEN,
            transposed_output.column_spec() + num_chunks(input@.len()) <= 32,
            counter + num_chunks(input@.len()) <= u64::MAX,
        ensures
            n == num_chunks(input@.len()),
            forall|i: int|
                0 <= i < n ==> #[trigger] rows_column(*final(vectors), transposed_output.column_spec() + i)
                    == guts_chunk_cv(
                    key@,
                    input@.subrange(1024 * i, chunk_end(i, input@.len())),
                    (counter + i) as u64,
                    flags,
                ),
            forall|d: int|
                0 <= d < 32 && !(transposed_output.column_spec() <= d < transposed_output.column_spec() + n)
                    ==> #[trigger] rows_column(*final(vectors), d) == rows_column(*old(vectors), d),
    {
        let n: usize = input.len();
        let num = if n % CHUNK_LEN == 0 {
            n / CHUNK_LEN
        } else {
            n / CHUNK_LEN + 1
        };
        let col = transposed_output.column;
        let mut i: usize = 0;
        let mut rest = input;
        while i < num
            invariant
                n == input@.len(),
                num == num_chunks(n as nat),
                i <= num,
                col == transposed_output.column_spec(),
                col + num <= 32,
                counter + num <= u64::MAX,
                i < num ==> rest@ == input@.subrange(1024 * i, n as int),
                forall|k: int|
                    0 <= k < i ==> #[trigger] rows_column(*vectors, col + k) == guts_chunk_cv(
                        key@,
                        input@.subrange(1024 * k, chunk_end(k, n as nat)),
                        (counter + k) as u64,
                        flags,
                    ),
                forall|d: int|
                    0 <= d < 32 && !(col <= d < col + i) ==> #[trigger] rows_column(*vectors, d) == rows_column(
                        *old(vectors),
                        d,
                    ),
            decreases num - i,
        {
            let take = if rest.len() < CHUNK_LEN {
                rest.len()
            } else {
                CHUNK_LEN
            };
            let (chunk, tail) = rest.split_at(take);
            let cv = chunk_cv_words(chunk, key, counter + i as u64, flags);
            proof {
                assert(chunk@ =~= input@.subrange(1024 * i as int, chunk_end(i as int, n as nat)));
            }
            crate::platform::rows_set_column(vectors, col + i, &cv);
            rest = tail;
            i += 1;
            proof {
                if i < num {
                    assert(rest@ =~= input@.subrange(1024 * i as int, n as int));
                }
            }
        }
        num
    }

    /// Compress the parents over the pairs of columns of `transposed_input`
    /// (no flags added: the caller sets `PARENT`), storing them from the
    /// split's column on; an odd last chaining value is copied after them.
    /// Returns the number of values stored.
    pub fn hash_parents(
        &self,
        transposed_input: &TransposedVectors,
        key: &[u32; 8],
        flags: u32,
        vectors: &mut [[u32; 32]; 8],
        transposed_output: TransposedSplit,
    ) -> (n: usize)
        requires
            transposed_input.len <= 32,
            transposed_output.column_spec() + (transposed_input.len + 1) / 2 <= 32,
        ensures
            n == (transposed_input.len + 1) / 2,
            forall|p: int|
                0 <= p < transposed_input.len / 2 ==> #[trigger] rows_column(
                    *final(vectors),
                    transposed_output.column_spec() + p,
                ) == compress_cv(
                    key@,
                    bytes_of(rows_column(transposed_input.vectors, 2 * p)) + bytes_of(
                        rows_column(transposed_input.vectors, 2 * p + 1),
                    ),
                    64,
                    0,
                    flags,
                ),
            transposed_input.len % 2 == 1 ==> rows_column(
                *final(vectors),
                transposed_output.column_spec() + transposed_input.len / 2,
            ) == rows_column(transposed_input.vectors, transposed_input.len - 1),
            forall|d: int|
                0 <= d < 32 && !(transposed_output.column_spec() <= d < transposed_output.column_spec() + n)
                    ==> #[trigger] rows_column(*final(vectors), d) == rows_column(*old(vectors), d),
    {
        let len = transposed_input.len;
        let num_parents = len / 2;
        let col = transposed_output.column;
        let mut p: usize = 0;
        while p < num_parents
            invariant
                len == transposed_input.len,
                len <= 32,
                num_parents == len / 2,
                p <= num_parents,
                col == transposed_output.column_spec(),
                col + (len + 1) / 2 <= 32,
                forall|q: int|
                    0 <= q < p ==> #[trigger] rows_column(*vectors, col + q) == compress_cv(
                        key@,
                        bytes_of(rows_column(transposed_input.vectors, 2 * q)) + bytes_of(
                            rows_column(transposed_input.vectors, 2 * q + 1),
                        ),
                        64,
                        0,
                        flags,
                    ),
                forall|d: int|
                    0 <= d < 32 && !(col <= d < col + p) ==> #[trigger] rows_column(*vectors, d) == rows_column(
                        *old(vectors),
                        d,
                    ),
            decreases num_parents - p,
        {
            let left = crate::platform::le_bytes_from_words_32(
                &crate::platform::rows_get_column(&transposed_input.vectors, 2 * p),
            );
            let right = crate::platform::le_bytes_from_words_32(
                &crate::platform::rows_get_column(&transposed_input.vectors, 2 * p + 1),
            );
            let block = concat_cvs(&left, &right);
            let cv = self.compress(&block, BLOCK_LEN as u32, key, 0, flags);
            crate::platform::rows_set_column(vectors, col + p, &cv);
            p += 1;
        }
        if len % 2 == 1 {
            let last = crate::platform::rows_get_column(&transposed_input.vectors, len - 1);
            crate::platform::rows_set_column(vectors, col + num_parents, &last);
            num_parents + 1
        } else {
            num_parents
        }
    }

    /// `hash_parents` with the result written over the front of the input.
    /// The number of columns in use is left as it was. Returns the number of
    /// values stored.
    pub fn reduce_parents(&self, transposed_in_out: &mut TransposedVectors, key: &[u32; 8], flags: u32) -> (n: usize)
        requires
            old(transposed_in_out).len <= 32,
        ensures
            n == (old(transposed_in_out).len + 1) / 2,
            final(transposed_in_out).len == old(transposed_in_out).len,
            forall|p: int|
                0 <= p < old(transposed_in_out).len / 2 ==> #[trigger] rows_column(final(transposed_in_out).vectors, p)
                    == compress_cv(
                    key@,
                    bytes_of(rows_column(old(transposed_in_out).vectors, 2 * p)) + bytes_of(
                        rows_column(old(transposed_in_out).vectors, 2 * p + 1),
                    ),
                    64,
                    0,
                    flags,
                ),
            old(transposed_in_out).len % 2 == 1 ==> rows_column(
                final(transposed_in_out).vectors,
                (old(transposed_in_out).len / 2) as int,
            ) == rows_column(old(transposed_in_out).vectors, old(transposed_in_out).len - 1),
            forall|d: int|
                n <= d < 32 ==> #[trigger] rows_column(final(transposed_in_out).vectors, d) == rows_column(
                    old(transposed_in_out).vectors,
                    d,
                ),
    {
        let input = *transposed_in_out;
        let mut vectors = transposed_in_out.vectors;
        let n = self.hash_parents(&input, key, flags, &mut vectors, TransposedSplit { column: 0 });
        transposed_in_out.vectors = vectors;
        assert forall|p: int| 0 <= p < input.len / 2 implies #[trigger] rows_column(transposed_in_out.vectors, p)
            == compress_cv(
            key@,
            bytes_of(rows_column(input.vectors, 2 * p)) + bytes_of(rows_column(input.vectors, 2 * p + 1)),
            64,
            0,
            flags,
        ) by {
            assert(rows_column(vectors, 0 + p) == rows_column(vectors, p));
        }
        proof {
            if input.len % 2 == 1 {
                assert(rows_column(vectors, 0 + input.len / 2) == rows_column(vectors, (input.len / 2) as int));
            }
        }
        n
    }

    /// Fill `out` with extended output, block number `counter` first.
    pub fn xof(&self, block: &[u8; 64], block_len: u32, cv: &[u32; 8], counter: u64, flags: u32, out: &mut [u8])
        requires
            counter + (old(out)@.len() + 63) / 64 <= u64::MAX,
        ensures
            final(out)@.len() == old(out)@.len(),
            forall|k: int|
                0 <= k < final(out)@.len() ==> #[trigger] final(out)@[k] == xof_output_byte(
                    cv@,
                    block@,
                    block_len,
                    counter,
                    flags,
                    k as nat,
                ),
    {
        crate::portable::xof_words(block, block_len, cv, counter, flags, out)
    }

    /// XOR extended output, block number `counter` first, into `out`.
    pub fn xof_xor(&self, block: &[u8; 64], block_len: u32, cv: &[u32; 8], counter: u64, flags: u32, out: &mut [u8])
        requires
            counter + (old(out)@.len() + 63) / 64 <= u64::MAX,
        ensures
            final(out)@.len() == old(out)@.len(),
            forall|k: int|
                0 <= k < final(out)@.len() ==> #[trigger] final(out)@[k] == old(out)@[k] ^ xof_output_byte(
                    cv@,
                    block@,
                    block_len,
                    counter,
                    flags,
                    k as nat,
                ),
    {
        crate::portable::xof_xor_words(block, block_len, cv, counter, flags, out)
    }

    /// A 16-byte universal hash of `input` under `key`, its blocks numbered
    /// from `counter`.
    pub fn universal_hash(&self, input: &[u8], key: &[u32; 8], counter: u64) -> (r: [u8; 16])
        requires
            counter + (input@.len() + 63) / 64 <= u64::MAX,
        ensures
            r@ == universal_hash_spec(input@, key@, counter),
    {
        let ghost all = input@;
        let mut result = [0u8; UNIVERSAL_HASH_LEN];
        let mut rest = input;
        let mut counter = counter;
        let ghost c0 = counter;
        let ghost mut k: nat = 0;
        proof {
            assert(result@ =~= uh_acc(all, key@, c0, 0));
            assert(all.subrange(0, all.len() as int) =~= all);
        }
        while rest.len() > 0
            invariant
                rest@.len() > 0 ==> rest@ == all.subrange(64int * k, all.len() as int),
                rest@.len() > 0 ==> 64 * k < all.len(),
                rest@.len() == 0 ==> k == (all.len() + 63) / 64,
                k <= (all.len() + 63) / 64,
                counter == c0 + k,
                c0 + (all.len() + 63) / 64 <= u64::MAX,
                result@ == uh_acc(all, key@, c0, k),
            decreases rest@.len(),
        {
            let take = if rest.len() < BLOCK_LEN {
                rest.len()
            } else {
                BLOCK_LEN
            };
            let (head, tail) = rest.split_at(take);
            let mut block = [0u8; BLOCK_LEN];
            let mut j: usize = 0;
            while j < take
                invariant
                    j <= take,
                    take <= 64,
                    take == head@.len(),
                    forall|q: int| 0 <= q < j ==> block@[q] == head@[q],
                    forall|q: int| j <= q < 64 ==> block@[q] == 0,
                decreases take - j,
            {
                block[j] = head[j];
                j += 1;
            }
            proof {
                assert(block@ =~= pad_block(head@));
                assert(head@ =~= all.subrange(64int * k, if 64int * k + 64 < all.len() {
                    64int * k + 64
                } else {
                    all.len() as int
                }));
                assert((all.len() + 63) / 64 >= k + 1);
            }
            let block_output = self.compress_xof(&block, BLOCK_LEN as u32, key, counter, uh_flags_value());
            crate::portable::xor_into(&mut result, &block_output);
            proof {
                assert(result@ =~= uh_acc(all, key@, c0, k + 1));
            }
            rest = tail;
            counter += 1;
            proof {
                if rest@.len() > 0 {
                    assert(rest@ =~= all.subrange(64int * (k + 1), all.len() as int));
                }
                k = k + 1;
            }
        }
        proof {
            if all.len() == 0 {
                assert(k == 0);
            }
        }
        result
    }
}

/// The flags of every block of a universal hash.
fn uh_flags_value() -> (f: u32)
    ensures
        f == uh_flags(),
        f <= 0xff,
{
    proof {
        assert(KEYED_HASH | CHUNK_START | CHUNK_END | ROOT == 27u32) by (bit_vector);
    }
    KEYED_HASH | CHUNK_START | CHUNK_END | ROOT
}

/// The number of blocks of a chunk of `len > 0` bytes: the last one holds
/// 1 to 64 bytes.
pub open spec fn guts_num_blocks(len: nat) -> nat {
    ((len + 63) / 64) as nat
}

/// The flags of block `j` of a chunk of `nb` blocks: `CHUNK_START` is set
/// for the first block and cleared for the others, and `CHUNK_END` is added
/// to the last.
pub open spec fn guts_block_flags(flags: u32, j: nat, nb: nat) -> u32 {
    let f = if j == 0 {
        flags | CHUNK_START
    } else {
        flags & !CHUNK_START
    };
    if j + 1 == nb {
        f | CHUNK_END
    } else {
        f
    }
}

/// The length of block `j` of a chunk of `len` bytes.
pub open spec fn guts_block_len(len: nat, j: nat) -> u32 {
    if len - 64 * j < 64 {
        (len - 64 * j) as u32
    } else {
        64
    }
}

/// Block `j` of a chunk, zero-padded.
pub open spec fn guts_block(chunk: Seq<u8>, j: nat) -> Seq<u8> {
    pad_block(chunk.subrange(64 * j as int, 64 * j + guts_block_len(chunk.len(), j)))
}

/// The chaining value inside a chunk after its first `j` blocks.
pub open spec fn guts_chunk_cv_after(key: Seq<u32>, chunk: Seq<u8>, counter: u64, flags: u32, j: nat) -> Seq<u32>
    decreases j,
{
    if j == 0 {
        key
    } else {
        let i = (j - 1) as nat;
        compress_cv(
            guts_chunk_cv_after(key, chunk, counter, flags, i),
            guts_block(chunk, i),
            guts_block_len(chunk.len(), i),
            counter,
            guts_block_flags(flags, i, guts_num_blocks(chunk.len())),
        )
    }
}

/// The chaining value of a chunk of 1 to `CHUNK_LEN` bytes with chunk
/// number `counter`: every block compressed in turn.
pub open spec fn guts_chunk_cv(key: Seq<u32>, chunk: Seq<u8>, counter: u64, flags: u32) -> Seq<u32> {
    guts_chunk_cv_after(key, chunk, counter, flags, guts_num_blocks(chunk.len()))
}

/// Block `j` of `chunk`, zero-padded, as an array.
fn chunk_block(chunk: &[u8], j: usize) -> (block: [u8; 64])
    requires
        64 * j < chunk@.len(),
    ensures
        block@ == guts_block(chunk@, j as nat),
{
    assert(chunk@.len() == chunk.len());
    let start = 64 * j;
    let take = if chunk.len() - start < 64 {
        chunk.len() - start
    } else {
        64
    };
    let mut block = [0u8; 64];
    let mut t: usize = 0;
    while t < take
        invariant
            t <= take,
            take <= 64,
            start == 64 * j,
            start + take <= chunk@.len(),
            forall|k: int| 0 <= k < t ==> #[trigger] block@[k] == chunk@[start + k],
            forall|k: int| t <= k < 64 ==> #[trigger] block@[k] == 0u8,
        decreases take - t,
    {
        block[t] = chunk[start + t];
        t += 1;
    }
    proof {
        assert(take == guts_block_len(chunk@.len(), j as nat));
        assert(block@ =~= guts_block(chunk@, j as nat));
    }
    block
}

/// The chaining value, as words, of one chunk of 1 to `CHUNK_LEN` bytes.
fn chunk_cv_words(chunk: &[u8], key: &[u32; 8], counter: u64, flags: u32) -> (cv: [u32; 8])
    requires
        0 < chunk@.len() <= CHUNK_LEN,
    ensures
        cv@ == guts_chunk_cv(key@, chunk@, counter, flags),
{
    let n = chunk.len();
    let nb = (n + 63) / 64;
    let mut cv = *key;
    let mut chunk_flags = flags | CHUNK_START;
    let mut j: usize = 0;
    while j + 1 < nb
        invariant
            n == chunk@.len(),
            0 < n <= 1024,
            nb == guts_num_blocks(n as nat),
            j + 1 <= nb,
            cv@ == guts_chunk_cv_after(key@, chunk@, counter, flags, j as nat),
            chunk_flags == (if j == 0 {
                flags | CHUNK_START
            } else {
                flags & !CHUNK_START
            }),
        decreases nb - j,
    {
        let block = chunk_block(chunk, j);
        proof {
            assert(guts_block_len(n as nat, j as nat) == 64);
            assert(guts_block_flags(flags, j as nat, nb as nat) == chunk_flags);
        }
        cv = crate::portable::compress_cv_words(&cv, &block, BLOCK_LEN as u32, counter, chunk_flags);
        proof {
            assert((flags | CHUNK_START) & !CHUNK_START == flags & !CHUNK_START) by (bit_vector);
            assert((flags & !CHUNK_START) & !CHUNK_START == flags & !CHUNK_START) by (bit_vector);
        }
        chunk_flags = chunk_flags & !CHUNK_START;
        j += 1;
    }
    let block = chunk_block(chunk, j);
    let len = (n - 64 * j) as u32;
    proof {
        assert(guts_block_len(n as nat, j as nat) == len);
        assert(guts_block_flags(flags, j as nat, nb as nat) == chunk_flags | CHUNK_END);
    }
    crate::portable::compress_cv_words(&cv, &block, len, counter, chunk_flags | CHUNK_END)
}

/// The 64-byte parent block over two chaining values.
fn concat_cvs(left: &[u8; 32], right: &[u8; 32]) -> (block: [u8; 64])
    ensures
        block@ == left@ + right@,
{
    let mut block = [0u8; 64];
    let mut i: usize = 0;
    while i < 32
        invariant
            i <= 32,
            forall|k: int| 0 <= k < i ==> block@[k] == left@[k],
            forall|k: int| 0 <= k < i ==> block@[k + 32] == right@[k],
        decreases 32 - i,
    {
        block[i] = left[i];
        block[i + 32] = right[i];
        i += 1;
    }
    assert(block@ =~= left@ + right@);
    block
}

/// The number of inputs the detected kernels take side by side.
pub fn degree() -> (d: usize)
    ensures
        d == MAX_SIMD_DEGREE,
{
    Implementation::portable().degree()
}

/// The two halves of a set of transposed vectors, for the detected kernels.
pub fn split_transposed_vectors(vectors: &mut [[u32; 32]; 8]) -> (r: (TransposedSplit, TransposedSplit))
    ensures
        r.0.column_spec() == 0,
        r.1.column_spec() == MAX_SIMD_DEGREE,
        *final(vectors) == *old(vectors),
{
    Implementation::portable().split_transposed_vectors(vectors)
}

/// `Implementation::compress` with the detected kernels.
pub fn compress(block: &[u8; 64], block_len: u32, cv: &[u32; 8], counter: u64, flags: u32) -> (r: [u32; 8])
    ensures
        r@ == compress_cv(cv@, block@, block_len, counter, flags),
{
    Implementation::portable().compress(block, block_len, cv, counter, flags)
}

/// `Implementation::compress_xof` with the detected kernels.
pub fn compress_xof(block: &[u8; 64], block_len: u32, cv: &[u32; 8], counter: u64, flags: u32) -> (r: [u8; 64])
    ensures
        r@ == compress_xof_bytes(cv@, block@, block_len, counter, flags),
{
    Implementation::portable().compress_xof(block, block_len, cv, counter, flags)
}

/// `Implementation::hash_chunks` with the detected kernels.
pub fn hash_chunks(
    input: &[u8],
    key: &[u32; 8],
    counter: u64,
    flags: u32,
    vectors: &mut [[u32; 32]; 8],
    transposed_output: TransposedSplit,
) -> (n: usize)
    requires
        0 < input@.len() <= MAX_SIMD_DEGREE * CHUNK_LEN,
        transposed_output.column_spec() + num_chunks(input@.len()) <= 32,
        counter + num_chunks(input@.len()) <= u64::MAX,
    ensures
        n == num_chunks(input@.len()),
        forall|i: int|
            0 <= i < n ==> #[trigger] rows_column(*final(vectors), transposed_output.column_spec() + i)
                == guts_chunk_cv(
                key@,
                input@.subrange(1024 * i, chunk_end(i, input@.len())),
                (counter + i) as u64,
                flags,
            ),
        forall|d: int|
            0 <= d < 32 && !(transposed_output.column_spec() <= d < transposed_output.column_spec() + n)
                ==> #[trigger] rows_column(*final(vectors), d) == rows_column(*old(vectors), d),
{
    Implementation::portable().hash_chunks(input, key, counter, flags, vectors, transposed_output)
}

/// `Implementation::hash_parents` with the detected kernels.
pub fn hash_parents(
    transposed_input: &TransposedVectors,
    key: &[u32; 8],
    flags: u32,
    vectors: &mut [[u32; 32]; 8],
    transposed_output: TransposedSplit,
) -> (n: usize)
    requires
        transposed_input.len <= 32,
        transposed_output.column_spec() + (transposed_input.len + 1) / 2 <= 32,
    ensures
        n == (transposed_input.len + 1) / 2,
        forall|p: int|
            0 <= p < transposed_input.len / 2 ==> #[trigger] rows_column(*final(vectors), transposed_output.column_spec() + p)
                == compress_cv(
                key@,
                bytes_of(rows_column(transposed_input.vectors, 2 * p)) + bytes_of(
                    rows_column(transposed_input.vectors, 2 * p + 1),
                ),
                64,
                0,
                flags,
            ),
        transposed_input.len % 2 == 1 ==> rows_column(
            *final(vectors),
            transposed_output.column_spec() + transposed_input.len / 2,
        ) == rows_column(transposed_input.vectors, transposed_input.len - 1),
        forall|d: int|
            0 <= d < 32 && !(transposed_output.column_spec() <= d < transposed_output.column_spec() + n)
                ==> #[trigger] rows_column(*final(vectors), d) == rows_column(*old(vectors), d),
{
    Implementation::portable().hash_parents(transposed_input, key, flags, vectors, transposed_output)
}

/// `Implementation::reduce_parents` with the detected kernels.
pub fn reduce_parents(transposed_in_out: &mut TransposedVectors, key: &[u32; 8], flags: u32) -> (n: usize)
    requires
        old(transposed_in_out).len <= 32,
    ensures
        n == (old(transposed_in_out).len + 1) / 2,
        final(transposed_in_out).len == old(transposed_in_out).len,
        forall|p: int|
            0 <= p < old(transposed_in_out).len / 2 ==> #[trigger] rows_column(final(transposed_in_out).vectors, p)
                == compress_cv(
                key@,
                bytes_of(rows_column(old(transposed_in_out).vectors, 2 * p)) + bytes_of(
                    rows_column(old(transposed_in_out).vectors, 2 * p + 1),
                ),
                64,
                0,
                flags,
            ),
        old(transposed_in_out).len % 2 == 1 ==> rows_column(
            final(transposed_in_out).vectors,
            (old(transposed_in_out).len / 2) as int,
        ) == rows_column(old(transposed_in_out).vectors, old(transposed_in_out).len - 1),
        forall|d: int|
            n <= d < 32 ==> #[trigger] rows_column(final(transposed_in_out).vectors, d) == rows_column(
                old(transposed_in_out).vectors,
                d,
            ),
{
    Implementation::portable().reduce_parents(transposed_in_out, key, flags)
}

/// `Implementation::xof` with the detected kernels.
pub fn xof(block: &[u8; 64], block_len: u32, cv: &[u32; 8], counter: u64, flags: u32, out: &mut [u8])
    requires
        counter + (old(out)@.len() + 63) / 64 <= u64::MAX,
    ensures
        final(out)@.len() == old(out)@.len(),
        forall|k: int|
            0 <= k < final(out)@.len() ==> #[trigger] final(out)@[k] == xof_output_byte(
                cv@,
                block@,
                block_len,
                counter,
                flags,
                k as nat,
            ),
{
    Implementation::portable().xof(block, block_len, cv, counter, flags, out)
}

/// `Implementation::xof_xor` with the detected kernels.
pub fn xof_xor(block: &[u8; 64], block_len: u32, cv: &[u32; 8], counter: u64, flags: u32, out: &mut [u8])
    requires
        counter + (old(out)@.len() + 63) / 64 <= u64::MAX,
    ensures
        final(out)@.len() == old(out)@.len(),
        forall|k: int|
            0 <= k < final(out)@.len() ==> #[trigger] final(out)@[k] == old(out)@[k] ^ xof_output_byte(
                cv@,
                block@,
                block_len,
                counter,
                flags,
                k as nat,
            ),
{
    Implementation::portable().xof_xor(block, block_len, cv, counter, flags, out)
}

/// `Implementation::universal_hash` with the detected kernels.
pub fn universal_hash(input: &[u8], key: &[u32; 8], counter: u64) -> (r: [u8; 16])
    requires
        counter + (input@.len() + 63) / 64 <= u64::MAX,
    ensures
        r@ == universal_hash_spec(input@, key@, counter),
{
    Implementation::portable().universal_hash(input, key, counter)
}

/// Paint a test input with the repeating byte pattern `i % 251`.
pub fn paint_test_input(buf: &mut [u8])
    ensures
        final(buf)@.len() == old(buf)@.len(),
        forall|i: int| 0 <= i < final(buf)@.len() ==> #[trigger] final(buf)@[i] == i % 251,
{
    crate::test_vectors::paint_test_input(buf)
}

} // verus!

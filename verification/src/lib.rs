//! The BLAKE3 cryptographic hash function, with its Merkle-tree mode, keyed
//! hashing, key derivation and extendable output.

use vstd::prelude::*;
use vstd::string::StringSliceAdditionalSpecFns;

pub mod platform;
pub mod portable;
pub mod model;
pub mod tree;
pub mod stack;
pub mod outside;
pub mod hasher;
pub mod laws;
pub mod hazmat;
pub mod guts;
pub mod join;
pub mod kernel2;
pub mod gpu;
pub mod test_vectors;
pub mod b3sum;
pub mod file;
pub mod blake3_guts;
pub mod reference_impl;

pub use crate::hasher::Hasher;

use crate::model::{
    xof_byte, xof_stream, blocks_before_last, chunk_cv_after, chunk_output, left_len_spec, output_cv, pad_block,
    parent_output, pow2_floor, root_hash_bytes, start_flag, subtree_cv, subtree_output, xof_block,
    OutputModel,
};
use crate::platform::{MAX_SIMD_DEGREE, MAX_SIMD_DEGREE_OR_2};
use crate::portable::{hash1_block_flags, hash1_cv_after, hash1_spec, hash_many_cv};
use crate::tree::{
    chunk_cvs, chunk_end, clog2, exp2, holds_cvs, layers_len, num_chunks, pair_up, pair_up_n,
    parent_cv, wide_cvs, wide_width,
};
use crate::platform::{bytes_of, Platform};

verus! {

/// The number of bytes in a [`Hash`], 32.
pub const OUT_LEN: usize = 32;

/// The number of bytes in a key, 32.
pub const KEY_LEN: usize = 32;

pub const BLOCK_LEN: usize = 64;

pub const CHUNK_LEN: usize = 1024;

/// The number of bytes of a universal hash, 16.
pub const UNIVERSAL_HASH_LEN: usize = 16;

/// 2^54 * CHUNK_LEN = 2^64
pub const MAX_DEPTH: usize = 54;

pub const IV: [u32; 8] = [
    0x6A09E667, 0xBB67AE85, 0x3C6EF372, 0xA54FF53A, 0x510E527F, 0x9B05688C, 0x1F83D9AB, 0x5BE0CD19,
];

pub const MSG_SCHEDULE: [[usize; 16]; 7] = [
    [0, 1, 2, 3, 4, 5, 6, 7, 8, 9, 10, 11, 12, 13, 14, 15],
    [2, 6, 3, 10, 7, 0, 4, 13, 1, 11, 12, 5, 9, 14, 15, 8],
    [3, 4, 10, 12, 13, 2, 7, 14, 6, 5, 9, 0, 11, 15, 8, 1],
    [10, 7, 12, 9, 14, 3, 13, 15, 4, 0, 11, 2, 5, 8, 1, 6],
    [12, 13, 9, 11, 15, 10, 14, 8, 7, 2, 5, 3, 0, 1, 6, 4],
    [9, 14, 11, 5, 8, 12, 15, 1, 13, 3, 0, 10, 2, 6, 4, 7],
    [11, 15, 5, 0, 1, 9, 8, 6, 14, 10, 2, 12, 3, 4, 7, 13],
];

// Domain-separation flags, set in the last word of the compression state.
pub const CHUNK_START: u8 = 1;
pub const CHUNK_END: u8 = 2;
pub const PARENT: u8 = 4;
pub const ROOT: u8 = 8;
pub const KEYED_HASH: u8 = 16;
pub const DERIVE_KEY_CONTEXT: u8 = 32;
pub const DERIVE_KEY_MATERIAL: u8 = 64;

/// The low 32 bits of a 64-bit block counter.
pub fn counter_low(counter: u64) -> (r: u32)
    ensures
        r == counter as u32,
        r == counter % 0x1_0000_0000,
{
    proof {
        assert(counter as u32 == counter % 0x1_0000_0000) by (bit_vector);
    }
    counter as u32
}

/// The high 32 bits of a 64-bit block counter.
pub fn counter_high(counter: u64) -> (r: u32)
    ensures
        r == (counter >> 32u64) as u32,
        r == counter / 0x1_0000_0000,
{
    proof {
        assert((counter >> 32u64) as u32 == counter / 0x1_0000_0000) by (bit_vector);
    }
    (counter >> 32u64) as u32
}


/// An output of the default size, 32 bytes, which provides constant-time
/// equality checking.
///
/// `Hash` converts to and from `[u8; 32]` with `From`, and `as_bytes` gives
/// the bytes by reference. Byte arrays and slices do not compare in constant
/// time, so `Hash` deliberately offers no implicit conversion to them.
#[derive(Clone, Copy, Hash, Debug)]
pub struct Hash(pub(crate) [u8; OUT_LEN]);

impl View for Hash {
    type V = Seq<u8>;

    closed spec fn view(&self) -> Seq<u8> {
        self.0@
    }
}

/// The lowercase hexadecimal digit of a number below 16, as ASCII.
pub open spec fn hex_digit(n: u8) -> u8 {
    if n < 10 {
        (48 + n) as u8
    } else {
        (87 + n) as u8
    }
}

/// The lowercase hexadecimal encoding of bytes, two ASCII digits per byte,
/// the high half first.
pub open spec fn hex_of(bytes: Seq<u8>) -> Seq<u8> {
    Seq::new(2 * bytes.len(), |i: int| if i % 2 == 0 { hex_digit(bytes[i / 2] >> 4) } else { hex_digit(bytes[i / 2] & 0xf) })
}

impl Hash {
    /// The bytes of the `Hash`. Byte arrays do not compare in constant time:
    /// to compare hashes, prefer the `Hash` type.
    pub fn as_bytes(&self) -> (r: &[u8; OUT_LEN])
        ensures
            r@ == self@,
    {
        &self.0
    }

    /// The hexadecimal encoding of the `Hash`, in a fixed-size string that
    /// does not allocate. The string does not compare in constant time.
    pub fn to_hex(&self) -> (s: arrayvec::ArrayString<64>)
        ensures
            crate::outside::hex_string_bytes(s) == hex_of(self@),
    {
        let mut s = crate::outside::hex_string_new();
        let table: [u8; 16] = [48, 49, 50, 51, 52, 53, 54, 55, 56, 57, 97, 98, 99, 100, 101, 102];
        let mut i: usize = 0;
        while i < OUT_LEN
            invariant
                i <= OUT_LEN,
                crate::outside::hex_string_bytes(s) == hex_of(self@.subrange(0, i as int)),
                forall|k: int| 0 <= k < 16 ==> table@[k] == hex_digit(k as u8),
            decreases OUT_LEN - i,
        {
            let b = self.0[i];
            proof {
                assert(b >> 4 < 16) by (bit_vector);
                assert(b & 0xf < 16) by (bit_vector);
            }
            crate::outside::hex_string_push(&mut s, table[(b >> 4) as usize]);
            crate::outside::hex_string_push(&mut s, table[(b & 0xf) as usize]);
            proof {
                assert(hex_of(self@.subrange(0, i + 1)) =~= hex_of(self@.subrange(0, i as int)).push(
                    hex_digit(b >> 4),
                ).push(hex_digit(b & 0xf)));
            }
            i += 1;
        }
        proof {
            assert(self@.subrange(0, 32) =~= self@);
        }
        s
    }
}

impl From<[u8; OUT_LEN]> for Hash {
    fn from(bytes: [u8; OUT_LEN]) -> (h: Self) {
        Hash(bytes)
    }
}

impl vstd::std_specs::convert::FromSpecImpl<[u8; OUT_LEN]> for Hash {
    open spec fn obeys_from_spec() -> bool {
        true
    }

    closed spec fn from_spec(bytes: [u8; OUT_LEN]) -> Self {
        Hash(bytes)
    }
}

impl From<Hash> for [u8; OUT_LEN] {
    fn from(hash: Hash) -> (bytes: Self) {
        hash.0
    }
}

impl vstd::std_specs::convert::FromSpecImpl<Hash> for [u8; OUT_LEN] {
    open spec fn obeys_from_spec() -> bool {
        true
    }

    closed spec fn from_spec(hash: Hash) -> Self {
        hash.0
    }
}

/// This implementation is constant-time.
impl PartialEq for Hash {
    fn eq(&self, other: &Hash) -> (r: bool) {
        crate::outside::ct_eq_32(&self.0, &other.0)
    }
}

impl vstd::std_specs::cmp::PartialEqSpecImpl for Hash {
    open spec fn obeys_eq_spec() -> bool {
        true
    }

    open spec fn eq_spec(&self, other: &Hash) -> bool {
        self@ == other@
    }
}

/// This implementation is constant-time.
impl PartialEq<[u8; OUT_LEN]> for Hash {
    fn eq(&self, other: &[u8; OUT_LEN]) -> (r: bool) {
        crate::outside::ct_eq_32(&self.0, other)
    }
}

impl vstd::std_specs::cmp::PartialEqSpecImpl<[u8; OUT_LEN]> for Hash {
    open spec fn obeys_eq_spec() -> bool {
        true
    }

    open spec fn eq_spec(&self, other: &[u8; OUT_LEN]) -> bool {
        self@ == other@
    }
}

impl Eq for Hash {}

/// The state of one node just before the choice between a chaining value
/// and root output.
#[derive(Clone, Copy)]
pub(crate) struct Output {
    pub(crate) input_chaining_value: [u32; 8],
    pub(crate) block: [u8; 64],
    pub(crate) block_len: u8,
    pub(crate) counter: u64,
    pub(crate) flags: u8,
    pub(crate) platform: Platform,
}

impl Output {
    pub(crate) closed spec fn model(self) -> OutputModel {
        OutputModel {
            cv: self.input_chaining_value@,
            block: self.block@,
            block_len: self.block_len,
            counter: self.counter,
            flags: self.flags,
        }
    }

    pub(crate) fn chaining_value(&self) -> (r: [u8; 32])
        ensures
            r@ == bytes_of(output_cv(self.model())),
    {
        let mut cv = self.input_chaining_value;
        self.platform.compress_in_place(
            &mut cv,
            &self.block,
            self.block_len,
            self.counter,
            self.flags,
        );
        platform::le_bytes_from_words_32(&cv)
    }

    pub(crate) fn root_hash(&self) -> (h: Hash)
        requires
            self.counter == 0,
        ensures
            h@ == root_hash_bytes(self.model()),
    {
        let mut cv = self.input_chaining_value;
        self.platform.compress_in_place(&mut cv, &self.block, self.block_len, 0, self.flags | ROOT);
        Hash(platform::le_bytes_from_words_32(&cv))
    }

    pub(crate) fn root_output_block(&self) -> (r: [u8; 64])
        ensures
            r@ == xof_block(self.model(), self.counter),
    {
        self.platform.compress_xof(
            &self.input_chaining_value,
            &self.block,
            self.block_len,
            self.counter,
            self.flags | ROOT,
        )
    }
}

/// Whether the block counter goes up from one input to the next.
#[derive(Clone, Copy, PartialEq, Eq, Structural)]
pub enum IncrementCounter {
    Yes,
    No,
}

impl IncrementCounter {
    pub(crate) fn yes(&self) -> (b: bool)
        ensures
            b == (*self == IncrementCounter::Yes),
    {
        match self {
            IncrementCounter::Yes => true,
            IncrementCounter::No => false,
        }
    }
}

/// Copy 64 bytes of `input`, from `start`, into a block.
pub(crate) fn copy_block(input: &[u8], start: usize) -> (b: [u8; 64])
    requires
        start + 64 <= input@.len(),
    ensures
        b@ == input@.subrange(start as int, start + 64),
{
    let n: usize = input.len();
    let mut b = [0u8; 64];
    let mut i: usize = 0;
    while i < 64
        invariant
            i <= 64,
            start + 64 <= input@.len(),
            n == input@.len(),
            forall|k: int| 0 <= k < i ==> b@[k] == input@[start + k],
        decreases 64 - i,
    {
        b[i] = input[start + i];
        i += 1;
    }
    assert(b@ =~= input@.subrange(start as int, start + 64));
    b
}

/// The chaining value after `k` blocks depends only on the first `64 * k`
/// bytes of the chunk.
proof fn lemma_chunk_cv_prefix(key: Seq<u32>, a: Seq<u8>, b: Seq<u8>, counter: u64, flags: u8, k: nat)
    requires
        64 * k <= a.len(),
        64 * k <= b.len(),
        a.subrange(0, 64 * k as int) == b.subrange(0, 64 * k as int),
    ensures
        chunk_cv_after(key, a, counter, flags, k) == chunk_cv_after(key, b, counter, flags, k),
    decreases k,
{
    if k > 0 {
        let j = (k - 1) as nat;
        assert(a.subrange(0, 64 * j as int) =~= a.subrange(0, 64 * k as int).subrange(0, 64 * j as int));
        assert(b.subrange(0, 64 * j as int) =~= b.subrange(0, 64 * k as int).subrange(0, 64 * j as int));
        lemma_chunk_cv_prefix(key, a, b, counter, flags, j);
        assert(a.subrange(64 * j as int, 64 * k as int) =~= a.subrange(0, 64 * k as int).subrange(64 * j as int, 64 * k as int));
        assert(b.subrange(64 * j as int, 64 * k as int) =~= b.subrange(0, 64 * k as int).subrange(64 * j as int, 64 * k as int));
    }
}

/// The incremental state of one chunk.
#[derive(Clone, Copy)]
pub(crate) struct ChunkState {
    pub(crate) cv: [u32; 8],
    pub(crate) chunk_counter: u64,
    pub(crate) buf: [u8; BLOCK_LEN],
    pub(crate) buf_len: u8,
    pub(crate) blocks_compressed: u8,
    pub(crate) flags: u8,
    pub(crate) platform: Platform,
    /// The key the chunk started from.
    pub(crate) key: Ghost<Seq<u32>>,
    /// Every byte the chunk has taken in so far.
    pub(crate) input: Ghost<Seq<u8>>,
}

impl ChunkState {
    /// The chaining value and buffer agree with the bytes taken in, for any
    /// number of compressed blocks.
    pub(crate) closed spec fn absorbed(self) -> bool {
        &&& self.key@.len() == 8
        &&& self.buf_len <= BLOCK_LEN
        &&& self.input@.len() == BLOCK_LEN * self.blocks_compressed + self.buf_len
        &&& self.cv@ == chunk_cv_after(
            self.key@,
            self.input@,
            self.chunk_counter,
            self.flags,
            self.blocks_compressed as nat,
        )
        &&& self.buf@ == pad_block(
            self.input@.subrange(BLOCK_LEN * self.blocks_compressed, self.input@.len() as int),
        )
    }

    /// Well-formed: at most one chunk, and the last block is kept back until
    /// more input arrives.
    pub(crate) closed spec fn wf(self) -> bool {
        &&& self.absorbed()
        &&& self.input@.len() <= CHUNK_LEN
        &&& self.blocks_compressed == blocks_before_last(self.input@.len())
    }

    pub(crate) fn new(key: &[u32; 8], chunk_counter: u64, flags: u8, platform: Platform) -> (s: Self)
        ensures
            s.wf(),
            s.key@ == key@,
            s.input@ == Seq::<u8>::empty(),
            s.chunk_counter == chunk_counter,
            s.flags == flags,
            s.platform == platform,
    {
        let s = Self {
            cv: *key,
            chunk_counter,
            buf: [0; BLOCK_LEN],
            buf_len: 0,
            blocks_compressed: 0,
            flags,
            platform,
            key: Ghost(key@),
            input: Ghost(Seq::empty()),
        };
        assert(s.buf@ =~= pad_block(s.input@.subrange(0, 0)));
        s
    }

    pub(crate) fn len(&self) -> (n: usize)
        requires
            self.absorbed(),
        ensures
            n == self.input@.len(),
    {
        BLOCK_LEN * self.blocks_compressed as usize + self.buf_len as usize
    }

    /// Move as many bytes of `input`, from `pos`, as fit into the buffer.
    /// Returns the new position in `input`.
    fn fill_buf(&mut self, input: &[u8], pos: usize) -> (new_pos: usize)
        requires
            old(self).absorbed(),
            pos <= input@.len(),
        ensures
            final(self).absorbed(),
            pos <= new_pos <= input@.len(),
            final(self).input@ == old(self).input@ + input@.subrange(pos as int, new_pos as int),
            new_pos - pos == vstd::math::min(
                (BLOCK_LEN - old(self).buf_len) as int,
                input@.len() - pos,
            ),
            final(self).blocks_compressed == old(self).blocks_compressed,
            final(self).key == old(self).key,
            final(self).chunk_counter == old(self).chunk_counter,
            final(self).flags == old(self).flags,
            final(self).platform == old(self).platform,
    {
        let want = BLOCK_LEN - self.buf_len as usize;
        let take = if want < input.len() - pos {
            want
        } else {
            input.len() - pos
        };
        let ghost old_input = self.input@;
        let ghost start = BLOCK_LEN * self.blocks_compressed;
        let n: usize = input.len();
        let mut i: usize = 0;
        while i < take
            invariant
                i <= take,
                n == input@.len(),
                take + self.buf_len <= BLOCK_LEN,
                pos + take <= input@.len(),
                self.buf_len == old(self).buf_len,
                forall|k: int| 0 <= k < self.buf_len ==> self.buf@[k] == old(self).buf@[k],
                forall|k: int| self.buf_len <= k < self.buf_len + i ==> self.buf@[k] == input@[pos + k - self.buf_len],
                forall|k: int| self.buf_len + i <= k < BLOCK_LEN ==> self.buf@[k] == 0,
                self.cv == old(self).cv,
                self.blocks_compressed == old(self).blocks_compressed,
                self.key == old(self).key,
                self.input == old(self).input,
                self.chunk_counter == old(self).chunk_counter,
                self.flags == old(self).flags,
                self.platform == old(self).platform,
                old(self).absorbed(),
            decreases take - i,
        {
            let idx = self.buf_len as usize + i;
            self.buf[idx] = input[pos + i];
            i += 1;
        }
        self.buf_len = self.buf_len + take as u8;
        self.input = Ghost(old_input + input@.subrange(pos as int, (pos + take) as int));
        proof {
            let s = self.input@;
            assert(s.subrange(0, start as int) =~= old_input.subrange(0, start as int));
            lemma_chunk_cv_prefix(
                self.key@,
                old_input,
                s,
                self.chunk_counter,
                self.flags,
                self.blocks_compressed as nat,
            );
            assert(self.buf@ =~= pad_block(s.subrange(start as int, s.len() as int)));
        }
        pos + take
    }

    fn start_flag(&self) -> (f: u8)
        ensures
            f == start_flag(self.blocks_compressed as nat),
    {
        if self.blocks_compressed == 0 {
            CHUNK_START
        } else {
            0
        }
    }

    /// Take in more bytes of the chunk.
    pub(crate) fn update(&mut self, input: &[u8])
        requires
            old(self).wf(),
            old(self).input@.len() + input@.len() <= CHUNK_LEN,
        ensures
            final(self).wf(),
            final(self).input@ == old(self).input@ + input@,
            final(self).key == old(self).key,
            final(self).chunk_counter == old(self).chunk_counter,
            final(self).flags == old(self).flags,
            final(self).platform == old(self).platform,
    {
        let ghost old_input = self.input@;
        let mut pos: usize = 0;
        if self.buf_len > 0 {
            pos = self.fill_buf(input, pos);
            if pos < input.len() {
                // The buffer is full and more input follows: compress it.
                let block_flags = self.flags | self.start_flag();
                let ghost k = self.blocks_compressed as nat;
                let ghost s = self.input@;
                proof {
                    assert(s.subrange(64 * k as int, (64 * (k + 1)) as int) =~= self.buf@);
                }
                let mut cv = self.cv;
                self.platform.compress_in_place(
                    &mut cv,
                    &self.buf,
                    BLOCK_LEN as u8,
                    self.chunk_counter,
                    block_flags,
                );
                self.cv = cv;
                self.buf_len = 0;
                self.buf = [0; BLOCK_LEN];
                self.blocks_compressed += 1;
                proof {
                    assert(self.buf@ =~= pad_block(s.subrange(s.len() as int, s.len() as int)));
                }
            }
        }
        while input.len() - pos > BLOCK_LEN
            invariant
                self.absorbed(),
                pos <= input@.len(),
                self.input@ == old_input + input@.subrange(0, pos as int),
                self.input@.len() + (input@.len() - pos) <= CHUNK_LEN,
                pos < input@.len() ==> self.buf_len == 0,
                self.buf_len == 0 ==> (self.blocks_compressed == 0 || pos < input@.len()),
                self.key == old(self).key,
                self.chunk_counter == old(self).chunk_counter,
                self.flags == old(self).flags,
                self.platform == old(self).platform,
            decreases input@.len() - pos,
        {
            let block_flags = self.flags | self.start_flag();
            let block = copy_block(input, pos);
            let ghost k = self.blocks_compressed as nat;
            let ghost s_new = self.input@ + block@;
            proof {
                assert(self.input@.len() == 64 * k);
                assert(s_new.subrange(0, 64 * k as int) =~= self.input@.subrange(0, 64 * k as int));
                lemma_chunk_cv_prefix(self.key@, self.input@, s_new, self.chunk_counter, self.flags, k);
                assert(s_new.subrange(64 * k as int, (64 * (k + 1)) as int) =~= block@);
            }
            let mut cv = self.cv;
            self.platform.compress_in_place(
                &mut cv,
                &block,
                BLOCK_LEN as u8,
                self.chunk_counter,
                block_flags,
            );
            self.cv = cv;
            self.blocks_compressed += 1;
            self.input = Ghost(s_new);
            proof {
                assert(input@.subrange(0, (pos + 64) as int) =~= input@.subrange(0, pos as int)
                    + input@.subrange(pos as int, pos + 64));
                assert(self.buf@ =~= pad_block(s_new.subrange(s_new.len() as int, s_new.len() as int)));
            }
            pos += BLOCK_LEN;
            assert(self.input@ =~= old_input + input@.subrange(0, pos as int));
        }
        let end = self.fill_buf(input, pos);
        proof {
            assert(input@.subrange(0, end as int) =~= input@.subrange(0, pos as int)
                + input@.subrange(pos as int, end as int));
            assert(input@.subrange(0, input@.len() as int) =~= input@);
            assert(self.input@ =~= old_input + input@);
            let bc = self.blocks_compressed as int;
            let b = self.buf_len as int;
            if b > 0 {
                assert((64 * bc + b - 1) / 64 == bc);
            }
        }
    }

    pub(crate) fn output(&self) -> (o: Output)
        requires
            self.wf(),
        ensures
            o.model() == chunk_output(self.key@, self.input@, self.chunk_counter, self.flags),
            o.platform == self.platform,
    {
        let block_flags = self.flags | self.start_flag() | CHUNK_END;
        Output {
            input_chaining_value: self.cv,
            block: self.buf,
            block_len: self.buf_len,
            counter: self.chunk_counter,
            flags: block_flags,
            platform: self.platform,
        }
    }
}


pub(crate) proof fn lemma_or_zero(x: u8)
    ensures
        x | 0u8 == x,
{
    assert(x | 0u8 == x) by (bit_vector);
}

/// `hash1` over a whole chunk computes the chunk's chaining value.
proof fn lemma_hash1_chunk(key: Seq<u32>, input: Seq<u8>, counter: u64, flags: u8)
    requires
        input.len() == CHUNK_LEN,
    ensures
        hash1_spec(key, input, counter, flags, CHUNK_START, CHUNK_END) == output_cv(
            chunk_output(key, input, counter, flags),
        ),
{
    lemma_or_zero(flags);
    assert forall|k: nat| k <= 15 implies hash1_cv_after(key, input, counter, flags, CHUNK_START, CHUNK_END, k)
        == chunk_cv_after(key, input, counter, flags, k) by {
        lemma_hash1_chunk_prefix(key, input, counter, flags, k);
    }
    assert(blocks_before_last(1024) == 15);
    assert(pad_block(input.subrange(960, 1024)) =~= input.subrange(960, 1024));
    lemma_or_zero(flags | start_flag(15));
}

proof fn lemma_hash1_chunk_prefix(key: Seq<u32>, input: Seq<u8>, counter: u64, flags: u8, k: nat)
    requires
        input.len() == CHUNK_LEN,
        k <= 15,
    ensures
        hash1_cv_after(key, input, counter, flags, CHUNK_START, CHUNK_END, k) == chunk_cv_after(
            key,
            input,
            counter,
            flags,
            k,
        ),
    decreases k,
{
    if k > 0 {
        lemma_hash1_chunk_prefix(key, input, counter, flags, (k - 1) as nat);
        lemma_or_zero(flags);
        assert(hash1_block_flags(flags, CHUNK_START, CHUNK_END, (k - 1) as nat, 16) == flags
            | start_flag((k - 1) as nat));
    }
}

/// `hash1` over the block of two child values computes the parent's
/// chaining value.
proof fn lemma_hash1_parent(key: Seq<u32>, l: Seq<u32>, r: Seq<u32>, flags: u8)
    requires
        l.len() == 8,
        r.len() == 8,
    ensures
        hash1_spec(key, bytes_of(l) + bytes_of(r), 0, flags | PARENT, 0, 0) == parent_cv(l, r, key, flags),
{
    let b = bytes_of(l) + bytes_of(r);
    assert(b.len() == 64);
    lemma_or_zero(flags | PARENT);
    lemma_or_zero((flags | PARENT) | 0u8);
    assert(hash1_block_flags(flags | PARENT, 0, 0, 0, 1) == flags | PARENT);
    assert(b.subrange(0, 64) =~= b);
    assert(hash1_cv_after(key, b, 0, flags | PARENT, 0, 0, 0) == key);
    assert(b.len() / 64 == 1);
    assert(hash1_cv_after(key, b, 0, flags | PARENT, 0, 0, 1) == crate::portable::compress_cv(
        key,
        b,
        64,
        0,
        (flags | PARENT) as u32,
    ));
}

/// Write a 32-byte chaining value into `out` at byte `at`.
fn write_cv(out: &mut [u8], at: usize, cv: &[u8; 32])
    requires
        at + 32 <= old(out)@.len(),
    ensures
        final(out)@.len() == old(out)@.len(),
        final(out)@.subrange(at as int, at + 32) == cv@,
        forall|k: int| 0 <= k < old(out)@.len() && !(at <= k < at + 32) ==> final(out)@[k] == old(out)@[k],
{
    let n: usize = out.len();
    let mut i: usize = 0;
    while i < 32
        invariant
            i <= 32,
            n == out@.len(),
            at + 32 <= n,
            out@.len() == old(out)@.len(),
            forall|k: int| 0 <= k < i ==> out@[at + k] == cv@[k],
            forall|k: int| 0 <= k < out@.len() && !(at <= k < at + i) ==> out@[k] == old(out)@[k],
        decreases 32 - i,
    {
        out[at + i] = cv[i];
        i += 1;
    }
    assert(out@.subrange(at as int, at + 32) =~= cv@);
}

/// The two chaining values of a parent block.
pub(crate) fn split_cv_pair(block: &[u8; BLOCK_LEN]) -> (r: ([u8; 32], [u8; 32]))
    ensures
        r.0@ == block@.subrange(0, 32),
        r.1@ == block@.subrange(32, 64),
{
    let mut left = [0u8; 32];
    let mut right = [0u8; 32];
    let mut i: usize = 0;
    while i < 32
        invariant
            i <= 32,
            forall|k: int| 0 <= k < i ==> left@[k] == block@[k],
            forall|k: int| 0 <= k < i ==> right@[k] == block@[k + 32],
        decreases 32 - i,
    {
        left[i] = block[i];
        right[i] = block[i + 32];
        i += 1;
    }
    assert(left@ =~= block@.subrange(0, 32));
    assert(right@ =~= block@.subrange(32, 64));
    (left, right)
}

/// The largest power of two less than or equal to `n` (1 for `n` = 0).
pub fn largest_power_of_two_leq(n: usize) -> (p: usize)
    ensures
        p == pow2_floor(n as nat),
{
    let mut p: usize = 1;
    let ghost mut e: nat = 0;
    while p <= n / 2
        invariant
            p == exp2(e),
            p >= 1,
            n >= 1 ==> p <= n,
            n == 0 ==> p == 1,
        decreases n - p,
    {
        p = p * 2;
        proof {
            e = e + 1;
        }
    }
    proof {
        lemma_pow2_floor_unique(n as nat, e);
    }
    p
}

proof fn lemma_pow2_floor_unique(n: nat, e: nat)
    requires
        n >= 1 ==> exp2(e) <= n < 2 * exp2(e),
        n == 0 ==> exp2(e) == 1,
    ensures
        pow2_floor(n) == exp2(e),
    decreases n,
{
    if n <= 1 {
        if e > 0 {
            crate::tree::lemma_exp2_pos((e - 1) as nat);
            assert(exp2(e) == 2 * exp2((e - 1) as nat));
        }
    } else {
        if e == 0 {
            assert(false);
        }
        let e1 = (e - 1) as nat;
        assert(exp2(e) == 2 * exp2(e1));
        lemma_pow2_floor_unique(n / 2, e1);
    }
}

/// Given input of more than one chunk, the number of bytes that go in the
/// left subtree: the largest power-of-two number of chunks that leaves at
/// least one byte for the right subtree.
pub fn left_len(content_len: usize) -> (l: usize)
    requires
        content_len > CHUNK_LEN,
    ensures
        l == left_len_spec(content_len as nat),
        0 < l < content_len,
{
    proof {
        crate::tree::lemma_left_len(content_len as nat);
    }
    // Subtract 1 to reserve at least one byte for the right side.
    let full_chunks = (content_len - 1) / CHUNK_LEN;
    let p = largest_power_of_two_leq(full_chunks);
    p * CHUNK_LEN
}

/// Hash up to `MAX_SIMD_DEGREE` chunks side by side, writing their chaining
/// values to `out`. Returns the number of chunks.
fn compress_chunks_parallel(
    input: &[u8],
    key: &[u32; 8],
    chunk_counter: u64,
    flags: u8,
    platform: Platform,
    out: &mut [u8],
) -> (n: usize)
    requires
        1 <= input@.len() <= MAX_SIMD_DEGREE * CHUNK_LEN,
        old(out)@.len() >= 32 * num_chunks(input@.len()),
        chunk_counter + num_chunks(input@.len()) <= u64::MAX,
    ensures
        n == num_chunks(input@.len()),
        final(out)@.len() == old(out)@.len(),
        holds_cvs(final(out)@, chunk_cvs(key@, input@, chunk_counter as nat, flags)),
{
    let ghost w = chunk_cvs(key@, input@, chunk_counter as nat, flags);
    let full = input.len() / CHUNK_LEN;
    let (full_bytes, rest) = input.split_at(full * CHUNK_LEN);
    platform.hash_many(
        full_bytes,
        CHUNK_LEN,
        key,
        chunk_counter,
        IncrementCounter::Yes,
        flags,
        CHUNK_START,
        CHUNK_END,
        out,
    );
    proof {
        assert forall|i: int| 0 <= i < full implies #[trigger] out@.subrange(32 * i, 32 * i + 32)
            == bytes_of(w[i]) by {
            let chunk = full_bytes@.subrange(i * 1024, (i + 1) * 1024);
            assert(chunk =~= input@.subrange(1024 * i, chunk_end(i, input@.len())));
            lemma_hash1_chunk(key@, chunk, (chunk_counter + i) as u64, flags);
            assert(out@.subrange(i * 32, i * 32 + 32) == bytes_of(
                hash_many_cv(full_bytes@, 1024, key@, chunk_counter, true, flags, CHUNK_START, CHUNK_END, i),
            ));
        }
    }
    if rest.len() > 0 {
        let counter = chunk_counter + full as u64;
        let mut chunk_state = ChunkState::new(key, counter, flags, platform);
        chunk_state.update(rest);
        let cv = chunk_state.output().chaining_value();
        let ghost before = out@;
        write_cv(out, full * OUT_LEN, &cv);
        proof {
            assert(chunk_state.input@ =~= rest@);
            assert(rest@ =~= input@.subrange(1024 * full, chunk_end(full as int, input@.len())));
            assert forall|i: int| 0 <= i < full + 1 implies #[trigger] out@.subrange(32 * i, 32 * i + 32)
                == bytes_of(w[i]) by {
                if i < full {
                    assert(out@.subrange(32 * i, 32 * i + 32) =~= before.subrange(32 * i, 32 * i + 32));
                }
            }
        }
        full + 1
    } else {
        full
    }
}

/// One layer of parent nodes over the chaining values in
/// `child_chaining_values`, written to `out`; an odd last value is copied.
/// Returns the number of values written.
pub(crate) fn compress_parents_parallel(
    child_chaining_values: &[u8],
    key: &[u32; 8],
    flags: u8,
    platform: Platform,
    out: &mut [u8],
    Ghost(w): Ghost<Seq<Seq<u32>>>,
) -> (n: usize)
    requires
        holds_cvs(child_chaining_values@, w),
        child_chaining_values@.len() == 32 * w.len(),
        2 <= w.len() <= 2 * MAX_SIMD_DEGREE_OR_2,
        old(out)@.len() >= 32 * ((w.len() + 1) / 2),
    ensures
        n == (w.len() + 1) / 2,
        final(out)@.len() == old(out)@.len(),
        holds_cvs(final(out)@, pair_up(w, key@, flags)),
{
    let num_children = child_chaining_values.len() / OUT_LEN;
    let parents = num_children / 2;
    let (pairs, _) = child_chaining_values.split_at(parents * BLOCK_LEN);
    let ghost pw = pair_up(w, key@, flags);
    platform.hash_many(pairs, BLOCK_LEN, key, 0, IncrementCounter::No, flags | PARENT, 0, 0, out);
    proof {
        assert forall|i: int| 0 <= i < parents implies #[trigger] out@.subrange(32 * i, 32 * i + 32)
            == bytes_of(pw[i]) by {
            let blk = pairs@.subrange(i * 64, (i + 1) * 64);
            let c = child_chaining_values@;
            assert(c.subrange(32 * (2 * i), 32 * (2 * i) + 32) == bytes_of(w[2 * i]));
            assert(c.subrange(32 * (2 * i + 1), 32 * (2 * i + 1) + 32) == bytes_of(w[2 * i + 1]));
            assert(blk =~= bytes_of(w[2 * i]) + bytes_of(w[2 * i + 1]));
            lemma_hash1_parent(key@, w[2 * i], w[2 * i + 1], flags);
            assert(out@.subrange(i * 32, i * 32 + 32) == bytes_of(
                hash_many_cv(pairs@, 64, key@, 0, false, flags | PARENT, 0, 0, i),
            ));
        }
    }
    if num_children % 2 == 1 {
        let mut last = [0u8; 32];
        let mut i: usize = 0;
        let base = child_chaining_values.len() - OUT_LEN;
        while i < 32
            invariant
                i <= 32,
                base + 32 == child_chaining_values@.len(),
                base + 32 <= usize::MAX,
                forall|k: int| 0 <= k < i ==> last@[k] == child_chaining_values@[base + k],
            decreases 32 - i,
        {
            last[i] = child_chaining_values[base + i];
            i += 1;
        }
        let ghost before = out@;
        write_cv(out, parents * OUT_LEN, &last);
        proof {
            assert(last@ =~= child_chaining_values@.subrange(32 * (w.len() - 1), 32 * (w.len() - 1) + 32));
            assert forall|i: int| 0 <= i < parents + 1 implies #[trigger] out@.subrange(32 * i, 32 * i + 32)
                == bytes_of(pw[i]) by {
                if i < parents {
                    assert(out@.subrange(32 * i, 32 * i + 32) =~= before.subrange(32 * i, 32 * i + 32));
                }
            }
        }
        parents + 1
    } else {
        parents
    }
}


proof fn lemma_holds_cvs_concat(lo: Seq<u8>, ro: Seq<u8>, a: Seq<Seq<u32>>, b: Seq<Seq<u32>>)
    requires
        holds_cvs(lo, a),
        lo.len() == 32 * a.len(),
        holds_cvs(ro, b),
    ensures
        holds_cvs(lo + ro, a + b),
{
    let c = lo + ro;
    assert forall|i: int| 0 <= i < (a + b).len() implies #[trigger] c.subrange(32 * i, 32 * i + 32)
        == bytes_of((a + b)[i]) by {
        if i < a.len() {
            assert(c.subrange(32 * i, 32 * i + 32) =~= lo.subrange(32 * i, 32 * i + 32));
        } else {
            let j = i - a.len();
            assert(c.subrange(32 * i, 32 * i + 32) =~= ro.subrange(32 * j, 32 * j + 32));
        }
    }
    assert forall|i: int| 0 <= i < (a + b).len() implies (#[trigger] (a + b)[i]).len() == 8 by {
        if i < a.len() {
        } else {
            assert((a + b)[i] == b[i - a.len()]);
        }
    }
}

/// Copy the first `len` bytes of `src` into `out` at `at`, leaving the rest
/// of `out` as it was.
pub(crate) fn copy_into(src: &[u8], out: &mut [u8; 1024], at: usize, len: usize)
    requires
        len <= src@.len(),
        at + len <= 1024,
    ensures
        final(out)@.subrange(at as int, at + len) == src@.subrange(0, len as int),
        forall|k: int| 0 <= k < 1024 && !(at <= k < at + len) ==> final(out)@[k] == old(out)@[k],
{
    let mut i: usize = 0;
    while i < len
        invariant
            i <= len,
            len <= src@.len(),
            at + len <= 1024,
            forall|k: int| 0 <= k < i ==> out@[at + k] == src@[k],
            forall|k: int| 0 <= k < 1024 && !(at <= k < at + i) ==> out@[k] == old(out)@[k],
        decreases len - i,
    {
        out[at + i] = src[i];
        i += 1;
    }
    assert(out@.subrange(at as int, at + len) =~= src@.subrange(0, len as int));
}

/// Copy the first `n` chaining values of `src` to the front of `out`.
pub(crate) fn copy_cvs(src: &[u8], out: &mut [u8], n: usize, Ghost(w): Ghost<Seq<Seq<u32>>>)
    requires
        holds_cvs(src@, w),
        n <= w.len(),
        32 * n <= old(out)@.len(),
    ensures
        final(out)@.len() == old(out)@.len(),
        holds_cvs(final(out)@, w.subrange(0, n as int)),
{
    let olen: usize = out.len();
    let total: usize = 32 * n;
    let mut i: usize = 0;
    while i < total
        invariant
            i <= total,
            total == 32 * n,
            olen == out@.len(),
            total <= olen,
            total <= src@.len(),
            out@.len() == old(out)@.len(),
            forall|k: int| 0 <= k < i ==> out@[k] == src@[k],
        decreases total - i,
    {
        out[i] = src[i];
        i += 1;
    }
    let ghost v = w.subrange(0, n as int);
    assert forall|j: int| 0 <= j < v.len() implies #[trigger] out@.subrange(32 * j, 32 * j + 32) == bytes_of(v[j]) by {
        assert(out@.subrange(32 * j, 32 * j + 32) =~= src@.subrange(32 * j, 32 * j + 32));
    }
}

/// The shape of one recursive step of the wide subtree hashing.
#[verifier::rlimit(60)]
proof fn lemma_wide_step(key: Seq<u32>, x: Seq<u8>, counter: nat, flags: u8, d: nat, e: nat)
    requires
        d == exp2(e),
        x.len() > d * 1024,
    ensures
        ({
            let l = left_len_spec(x.len());
            let left = x.subrange(0, l as int);
            let right = x.subrange(l as int, x.len() as int);
            let a = wide_cvs(key, left, counter, flags, d);
            let b = wide_cvs(key, right, counter + l / 1024, flags, d);
            &&& 0 < l < x.len()
            &&& l % 1024 == 0
            &&& a.len() == (if l == 1024 { 1 } else { wide_width(d) })
            &&& 1 <= b.len() <= wide_width(d)
            &&& wide_width(d) <= 16 ==> a.len() + b.len() <= 32
            &&& wide_cvs(key, x, counter, flags, d) == (if l == 1024 { a + b } else { pair_up(a + b, key, flags) })
            &&& num_chunks(right.len()) <= num_chunks(x.len())
            &&& num_chunks(x.len()) == l / 1024 + num_chunks(right.len())
            &&& l == 1024 ==> d == 1
        }),
{
    crate::tree::lemma_exp2_pos(e);
    assert(x.len() > 1024) by (nonlinear_arith)
        requires
            x.len() > d * 1024,
            d >= 1,
    ;
    let m = crate::tree::lemma_left_len(x.len());
    let l = left_len_spec(x.len());
    let left = x.subrange(0, l as int);
    let right = x.subrange(l as int, x.len() as int);
    crate::tree::lemma_wide(key, left, counter, flags, d, e);
    crate::tree::lemma_wide(key, right, counter + l / 1024, flags, d, e);
    assert(num_chunks(x.len()) > d) by (nonlinear_arith)
        requires
            x.len() > d * 1024,
            num_chunks(x.len()) == (x.len() + 1023) / 1024,
    ;
    assert(exp2(m + 1) == 2 * exp2(m));
    crate::tree::lemma_exp2_pos(e);
    if m < e {
        if m + 1 < e {
            crate::tree::lemma_exp2_strict(m + 1, e);
        }
    } else {
        crate::tree::lemma_exp2_monotone(e, m);
    }
    assert(left.len() == 1024 * exp2(m));
    crate::tree::lemma_wide_pow2(key, left, counter, flags, d, e, m);
    assert(right.len() == x.len() - l);
    assert(l == 1024 * exp2(m));
    assert(l % 1024 == 0);
    assert(num_chunks(x.len()) == l / 1024 + num_chunks(right.len()));
    assert(wide_cvs(key, x, counter, flags, d) == (if l == 1024 {
        wide_cvs(key, left, counter, flags, d) + wide_cvs(key, right, counter + l / 1024, flags, d)
    } else {
        pair_up(wide_cvs(key, left, counter, flags, d) + wide_cvs(key, right, counter + l / 1024, flags, d), key, flags)
    }));
}

/// The exponent of a backend's degree.
proof fn lemma_degree_exp(d: nat) -> (e: nat)
    requires
        d == 1 || d == 4 || d == 8 || d == 16,
    ensures
        d == exp2(e),
{
    reveal_with_fuel(exp2, 5);
    if d == 1 {
        0
    } else if d == 4 {
        2
    } else if d == 8 {
        3
    } else {
        4
    }
}

/// Hash a subtree, returning (writing out) a list of chaining values that
/// condense to its two children: up to `simd_degree` of them (at least two
/// when the subtree has more than one chunk). The root is never compressed
/// here.
#[verifier::rlimit(40)]
fn compress_subtree_wide(
    input: &[u8],
    key: &[u32; 8],
    chunk_counter: u64,
    flags: u8,
    platform: Platform,
    out: &mut [u8],
) -> (n: usize)
    requires
        input@.len() >= 1,
        old(out)@.len() >= 32 * wide_cvs(key@, input@, chunk_counter as nat, flags, platform.degree()).len(),
        chunk_counter + num_chunks(input@.len()) <= u64::MAX,
    ensures
        n == wide_cvs(key@, input@, chunk_counter as nat, flags, platform.degree()).len(),
        final(out)@.len() == old(out)@.len(),
        holds_cvs(final(out)@, wide_cvs(key@, input@, chunk_counter as nat, flags, platform.degree())),
    decreases input@.len(),
{
    let ghost d = platform.degree();
    let ghost e = lemma_degree_exp(d);
    proof {
        crate::tree::lemma_wide(key@, input@, chunk_counter as nat, flags, d, e);
    }
    if input.len() <= platform.simd_degree() * CHUNK_LEN {
        return compress_chunks_parallel(input, key, chunk_counter, flags, platform, out);
    }
    let ll = left_len(input.len());
    let (left, right) = input.split_at(ll);
    let right_chunk_counter = chunk_counter + (left.len() / CHUNK_LEN) as u64;
    let ghost a = wide_cvs(key@, left@, chunk_counter as nat, flags, d);
    let ghost b = wide_cvs(key@, right@, right_chunk_counter as nat, flags, d);
    proof {
        lemma_wide_step(key@, input@, chunk_counter as nat, flags, d, e);
        assert(left@ == input@.subrange(0, ll as int));
    }
    let mut cv_array = [0u8; 1024];
    let degree = if left.len() == CHUNK_LEN {
        1
    } else {
        let sd = platform.simd_degree();
        if sd > 2 {
            sd
        } else {
            2
        }
    };
    assert(degree == a.len());
    // Recurse on both sides, potentially in parallel.
    let left_job = move || -> (r: (usize, [u8; 512]))
        requires
            left@.len() >= 1,
            512 >= 32 * wide_cvs(key@, left@, chunk_counter as nat, flags, platform.degree()).len(),
            chunk_counter + num_chunks(left@.len()) <= u64::MAX,
        ensures
            r.0 == wide_cvs(key@, left@, chunk_counter as nat, flags, platform.degree()).len(),
            holds_cvs(r.1@, wide_cvs(key@, left@, chunk_counter as nat, flags, platform.degree())),
    {
        let mut buf = [0u8; 512];
        let n = compress_subtree_wide(left, key, chunk_counter, flags, platform, &mut buf);
        (n, buf)
    };
    let right_job = move || -> (r: (usize, [u8; 512]))
        requires
            right@.len() >= 1,
            512 >= 32 * wide_cvs(key@, right@, right_chunk_counter as nat, flags, platform.degree()).len(),
            right_chunk_counter + num_chunks(right@.len()) <= u64::MAX,
        ensures
            r.0 == wide_cvs(key@, right@, right_chunk_counter as nat, flags, platform.degree()).len(),
            holds_cvs(r.1@, wide_cvs(key@, right@, right_chunk_counter as nat, flags, platform.degree())),
    {
        let mut buf = [0u8; 512];
        let n = compress_subtree_wide(right, key, right_chunk_counter, flags, platform, &mut buf);
        (n, buf)
    };
    let ((left_n, left_buf), (right_n, right_buf)) = crate::join::rayon_join(left_job, right_job);
    copy_into(&left_buf, &mut cv_array, 0, degree * OUT_LEN);
    let ghost mid = cv_array@;
    copy_into(&right_buf, &mut cv_array, degree * OUT_LEN, 512);
    let ghost lo = left_buf@.subrange(0, 32 * degree as int);
    let ghost ro = right_buf@;
    proof {
        let m = 32 * degree as int;
        assert forall|k: int| 0 <= k < m implies cv_array@[k] == lo[k] by {
            assert(mid.subrange(0, m)[k] == mid[k]);
        }
        assert forall|k: int| m <= k < m + 512 implies cv_array@[k] == ro[k - m] by {
            assert(cv_array@.subrange(m, m + 512)[k - m] == cv_array@[k]);
        }
        assert(holds_cvs(lo, a)) by {
            assert forall|i: int| 0 <= i < a.len() implies #[trigger] lo.subrange(32 * i, 32 * i + 32) == bytes_of(a[i]) by {
                assert(lo.subrange(32 * i, 32 * i + 32) =~= left_buf@.subrange(32 * i, 32 * i + 32));
            }
        }
        assert(cv_array@.subrange(0, 32 * degree + 512) =~= lo + ro);
    }
    proof {
        lemma_holds_cvs_concat(lo, ro, a, b);
        let c = lo + ro;
        assert forall|i: int| 0 <= i < (a + b).len() implies #[trigger] cv_array@.subrange(32 * i, 32 * i + 32)
            == bytes_of((a + b)[i]) by {
            assert(cv_array@.subrange(32 * i, 32 * i + 32) =~= c.subrange(32 * i, 32 * i + 32));
        }
    }
    if left_n == 1 {
        copy_cvs(&cv_array, out, 2, Ghost(a + b));
        proof {
            assert(wide_cvs(key@, input@, chunk_counter as nat, flags, d) == a + b);
        }
        return 2;
    }
    let num_children = left_n + right_n;
    let (children, _) = cv_array.split_at(num_children * OUT_LEN);
    proof {
        assert(holds_cvs(children@, a + b)) by {
            assert forall|i: int| 0 <= i < (a + b).len() implies #[trigger] children@.subrange(32 * i, 32 * i + 32)
                == bytes_of((a + b)[i]) by {
                assert(children@.subrange(32 * i, 32 * i + 32) =~= cv_array@.subrange(32 * i, 32 * i + 32));
            }
        }
        assert(wide_cvs(key@, input@, chunk_counter as nat, flags, d) == pair_up(a + b, key@, flags));
    }
    compress_parents_parallel(children, key, flags, platform, out, Ghost(a + b))
}


/// The two children of the tree over `x`, as the 64-byte block of their
/// chaining values.
pub open spec fn children_block(key: Seq<u32>, x: Seq<u8>, counter: nat, flags: u8) -> Seq<u8> {
    let l = left_len_spec(x.len());
    bytes_of(subtree_cv(key, x.subrange(0, l as int), counter, flags)) + bytes_of(
        subtree_cv(key, x.subrange(l as int, x.len() as int), counter + l / 1024, flags),
    )
}

/// Hash a subtree of more than one chunk down to its top parent node, but
/// do not compress that node: return its block, the chaining values of its
/// two children.
pub(crate) fn compress_subtree_to_parent_node(
    input: &[u8],
    key: &[u32; 8],
    chunk_counter: u64,
    flags: u8,
    platform: Platform,
) -> (block: [u8; BLOCK_LEN])
    requires
        input@.len() > CHUNK_LEN,
        chunk_counter + num_chunks(input@.len()) <= u64::MAX,
    ensures
        block@ == children_block(key@, input@, chunk_counter as nat, flags),
{
    let ghost d = platform.degree();
    let ghost e = lemma_degree_exp(d);
    let ghost w = wide_cvs(key@, input@, chunk_counter as nat, flags, d);
    proof {
        crate::tree::lemma_wide(key@, input@, chunk_counter as nat, flags, d, e);
        reveal(crate::tree::condenses_to_children);
    }
    let mut cv_array = [0u8; 1024];
    let mut num_cvs = compress_subtree_wide(input, key, chunk_counter, flags, platform, &mut cv_array);
    let ghost c = clog2(w.len());
    let ghost mut t: nat = 0;
    proof {
        crate::tree::lemma_layers_len_two(w.len(), 0);
        crate::tree::lemma_pair_up_n_len(w, key@, flags, 0);
        assert(w.len() <= 16);
        assert(holds_cvs(cv_array@, pair_up_n(w, key@, flags, 0)));
    }
    // Condense the list into 2 values by forming parent nodes repeatedly.
    let mut out_array = [0u8; 256];
    while num_cvs > 2
        invariant
            2 <= w.len() <= 16,
            c == clog2(w.len()),
            t <= c - 1,
            num_cvs == pair_up_n(w, key@, flags, t).len(),
            num_cvs == layers_len(w.len(), t),
            2 <= num_cvs <= 16,
            holds_cvs(cv_array@, pair_up_n(w, key@, flags, t)),
        decreases num_cvs,
    {
        let ghost cur = pair_up_n(w, key@, flags, t);
        proof {
            crate::tree::lemma_layers_len_two(w.len(), t);
        }
        let (cv_slice, _) = cv_array.split_at(num_cvs * OUT_LEN);
        proof {
            assert forall|i: int| 0 <= i < cur.len() implies #[trigger] cv_slice@.subrange(32 * i, 32 * i + 32)
                == bytes_of(cur[i]) by {
                assert(cv_slice@.subrange(32 * i, 32 * i + 32) =~= cv_array@.subrange(32 * i, 32 * i + 32));
            }
        }
        num_cvs = compress_parents_parallel(cv_slice, key, flags, platform, &mut out_array, Ghost(cur));
        copy_cvs(&out_array, &mut cv_array, num_cvs, Ghost(pair_up(cur, key@, flags)));
        proof {
            t = t + 1;
            crate::tree::lemma_pair_up_n_len(w, key@, flags, t);
            assert(pair_up(cur, key@, flags).subrange(0, num_cvs as int) =~= pair_up(cur, key@, flags));
            crate::tree::lemma_layers_len_two(w.len(), t);
        }
    }
    proof {
        crate::tree::lemma_layers_len_two(w.len(), t);
    }
    let ghost two = pair_up_n(w, key@, flags, t);
    assert(two.len() == 2);
    proof {
        let i0: int = 0;
        let i1: int = 1;
        assert(cv_array@.subrange(32 * i0, 32 * i0 + 32) == bytes_of(two[i0]));
        assert(cv_array@.subrange(32 * i1, 32 * i1 + 32) == bytes_of(two[i1]));
    }
    assert(cv_array@.subrange(0, 32) == bytes_of(two[0]));
    assert(cv_array@.subrange(32, 64) == bytes_of(two[1]));
    let mut block = [0u8; BLOCK_LEN];
    let mut k: usize = 0;
    while k < 64
        invariant
            k <= 64,
            cv_array@.len() == 1024,
            cv_array@.subrange(0, 32) == bytes_of(two[0]),
            cv_array@.subrange(32, 64) == bytes_of(two[1]),
            forall|q: int| 0 <= q < k ==> block@[q] == cv_array@[q],
        decreases 64 - k,
    {
        block[k] = cv_array[k];
        k += 1;
    }
    proof {
        assert(block@ =~= cv_array@.subrange(0, 32) + cv_array@.subrange(32, 64));
    }
    block
}

/// Hash a complete input all at once, up to (but not including) the choice
/// between chaining value and root output.
fn hash_all_at_once(input: &[u8], key: &[u32; 8], flags: u8) -> (o: Output)
    ensures
        o.model() == subtree_output(key@, input@, 0, flags),
{
    let platform = Platform::portable();

    // If the whole subtree is one chunk, hash it directly with a ChunkState.
    if input.len() <= CHUNK_LEN {
        let mut chunk_state = ChunkState::new(key, 0, flags, platform);
        chunk_state.update(input);
        assert(chunk_state.input@ =~= input@);
        return chunk_state.output();
    }
    proof {
        crate::tree::lemma_subtree_split(key@, input@, 0, flags);
        assert(num_chunks(input@.len()) <= input@.len());
    }
    // Otherwise construct an Output object from the parent node returned by
    // compress_subtree_to_parent_node().
    Output {
        input_chaining_value: *key,
        block: compress_subtree_to_parent_node(input, key, 0, flags, platform),
        block_len: BLOCK_LEN as u8,
        counter: 0,
        flags: flags | PARENT,
        platform,
    }
}

/// The BLAKE3 hash of `input`: the root hash of the tree over it, keyed
/// with the IV.
pub open spec fn hash_spec(input: Seq<u8>) -> Seq<u8> {
    root_hash_bytes(subtree_output(IV@, input, 0, 0))
}

/// The keyed BLAKE3 hash of `input`.
pub open spec fn keyed_hash_spec(key: Seq<u8>, input: Seq<u8>) -> Seq<u8> {
    root_hash_bytes(subtree_output(crate::platform::words_of(key), input, 0, KEYED_HASH))
}

/// The default hash function.
pub fn hash(input: &[u8]) -> (h: Hash)
    ensures
        h@ == hash_spec(input@),
{
    hash_all_at_once(input, &IV, 0).root_hash()
}

/// The keyed hash function, suitable as a message authentication code.
pub fn keyed_hash(key: &[u8; KEY_LEN], input: &[u8]) -> (h: Hash)
    ensures
        h@ == keyed_hash_spec(key@, input@),
{
    let key_words = platform::words_from_le_bytes_32(key);
    hash_all_at_once(input, &key_words, KEYED_HASH).root_hash()
}


/// The derived-key hash of `key_material` under `context`, before output.
pub open spec fn derive_key_output(context: Seq<u8>, key_material: Seq<u8>) -> OutputModel {
    let context_key = root_hash_bytes(subtree_output(IV@, context, 0, DERIVE_KEY_CONTEXT));
    subtree_output(crate::platform::words_of(context_key), key_material, 0, DERIVE_KEY_MATERIAL)
}

/// The key derivation function. Given key material of any length and a
/// context string, fills `output` with derived key bytes. The context string
/// should be hardcoded, globally unique, and application-specific.
pub fn derive_key(context: &str, key_material: &[u8], output: &mut [u8])
    requires
        old(output)@.len() <= u64::MAX,
    ensures
        final(output)@ == xof_stream(
            derive_key_output(context.spec_bytes(), key_material@),
            0,
            old(output)@.len() as nat,
        ),
{
    let context_key = hash_all_at_once(context.as_bytes(), &IV, DERIVE_KEY_CONTEXT).root_hash();
    let context_key_words = platform::words_from_le_bytes_32(context_key.as_bytes());
    let inner_output = hash_all_at_once(key_material, &context_key_words, DERIVE_KEY_MATERIAL);
    let mut reader = OutputReader::new(inner_output);
    reader.fill(output);
}

/// The parent node over two child chaining values (as bytes).
fn parent_node_output(
    left_child: &[u8; 32],
    right_child: &[u8; 32],
    key: &[u32; 8],
    flags: u8,
    platform: Platform,
) -> (o: Output)
    ensures
        o.model() == parent_output(
            crate::platform::words_of(left_child@),
            crate::platform::words_of(right_child@),
            key@,
            flags,
        ),
        o.platform == platform,
{
    let mut block = [0u8; BLOCK_LEN];
    let mut i: usize = 0;
    while i < 64
        invariant
            i <= 64,
            forall|k: int| 0 <= k < i && k < 32 ==> block@[k] == left_child@[k],
            forall|k: int| 32 <= k < i ==> block@[k] == right_child@[k - 32],
        decreases 64 - i,
    {
        if i < 32 {
            block[i] = left_child[i];
        } else {
            block[i] = right_child[i - 32];
        }
        i += 1;
    }
    proof {
        crate::platform::lemma_bytes_words_bytes(left_child@);
        crate::platform::lemma_bytes_words_bytes(right_child@);
        assert(block@ =~= left_child@ + right_child@);
    }
    Output {
        input_chaining_value: *key,
        block,
        block_len: BLOCK_LEN as u8,
        counter: 0,
        flags: flags | PARENT,
        platform,
    }
}

/// An incremental reader for extended output.
#[derive(Clone, Copy)]
pub struct OutputReader {
    inner: Output,
    position_within_block: u8,
}

impl OutputReader {
    #[verifier::type_invariant]
    spec fn within_output(self) -> bool {
        &&& self.position_within_block < 64
        &&& self.inner.counter * 64 + self.position_within_block <= u64::MAX
    }

    /// The node whose root output this reader produces.
    pub closed spec fn node(self) -> OutputModel {
        self.inner.model()
    }

    /// The current read position in the output stream.
    pub closed spec fn pos(self) -> nat {
        (self.inner.counter * 64 + self.position_within_block) as nat
    }

    pub(crate) fn new(inner: Output) -> (r: Self)
        requires
            inner.counter * 64 <= u64::MAX,
        ensures
            r.node() == inner.model(),
            r.pos() == inner.counter * 64,
    {
        Self { inner, position_within_block: 0 }
    }

    /// Fill a buffer with output bytes and advance the position of the
    /// reader. The whole buffer is always filled. The output stream holds
    /// 2^64 - 1 bytes: reading past its end is excluded.
    pub fn fill(&mut self, buf: &mut [u8])
        requires
            old(self).pos() + old(buf)@.len() <= u64::MAX,
        ensures
            final(buf)@ == xof_stream(old(self).node(), old(self).pos(), old(buf)@.len() as nat),
            final(self).pos() == old(self).pos() + old(buf)@.len(),
            final(self).node().cv == old(self).node().cv,
            final(self).node().block == old(self).node().block,
            final(self).node().block_len == old(self).node().block_len,
            final(self).node().flags == old(self).node().flags,
    {
        let n: usize = buf.len();
        let ghost o = self.node();
        let ghost p0 = self.pos();
        let mut pos: usize = 0;
        while pos < n
            invariant
                n == buf@.len(),
                n == old(buf)@.len(),
                pos <= n,
                p0 + n <= u64::MAX,
                self.pos() == p0 + pos,
                self.inner.input_chaining_value@ == o.cv,
                self.inner.block@ == o.block,
                self.inner.block_len == o.block_len,
                self.inner.flags == o.flags,
                forall|k: int| 0 <= k < pos ==> buf@[k] == xof_byte(o, (p0 + k) as nat),
            decreases n - pos,
        {
            proof {
                use_type_invariant(&*self);
            }
            let block = self.inner.root_output_block();
            let off = self.position_within_block as usize;
            let take = if n - pos < BLOCK_LEN - off {
                n - pos
            } else {
                BLOCK_LEN - off
            };
            let ghost c = self.inner.counter;
            let mut i: usize = 0;
            while i < take
                invariant
                    i <= take,
                    off + take <= 64,
                    pos + take <= n,
                    n == buf@.len(),
                    off == self.position_within_block,
                    c == self.inner.counter,
                    self.pos() == p0 + pos,
                    block@ == xof_block(o, c),
                    forall|k: int| 0 <= k < pos ==> buf@[k] == xof_byte(o, (p0 + k) as nat),
                    forall|k: int| pos <= k < pos + i ==> buf@[k] == xof_byte(o, (p0 + k) as nat),
                decreases take - i,
            {
                proof {
                    let q = (p0 + pos + i) as nat;
                    assert(q == c * 64 + off + i);
                    assert(q / 64 == c);
                    assert(q % 64 == off + i);
                }
                buf[pos + i] = block[off + i];
                i += 1;
            }
            pos += take;
            if off + take == BLOCK_LEN {
                self.position_within_block = 0;
                self.inner.counter += 1;
            } else {
                self.position_within_block = (off + take) as u8;
            }
        }
        assert(buf@ =~= xof_stream(o, p0, n as nat));
    }

    /// The current read position in the output stream. A new reader starts
    /// at the counter of its node (0 for every root), and each call to
    /// `fill` moves it forward by the number of bytes read.
    pub fn position(&self) -> (p: u64)
        ensures
            p == self.pos(),
    {
        proof {
            use_type_invariant(self);
        }
        self.inner.counter * BLOCK_LEN as u64 + self.position_within_block as u64
    }

    /// Seek to a new read position in the output stream.
    pub fn set_position(&mut self, position: u64)
        ensures
            final(self).pos() == position,
            final(self).node().cv == old(self).node().cv,
            final(self).node().block == old(self).node().block,
            final(self).node().block_len == old(self).node().block_len,
            final(self).node().flags == old(self).node().flags,
    {
        proof {
            use_type_invariant(&*self);
        }
        self.position_within_block = (position % BLOCK_LEN as u64) as u8;
        self.inner.counter = position / BLOCK_LEN as u64;
        assert(position == (position / 64) * 64 + position % 64);
    }
}

/// Reading extended output through `std::io::Read`: a read fills the whole
/// buffer, up to the end of the output stream (2^64 - 1 bytes).
impl std::io::Read for OutputReader {
    fn read(&mut self, buf: &mut [u8]) -> (r: std::io::Result<usize>)
        ensures
            ({
                let n = if old(self).pos() + old(buf)@.len() <= u64::MAX {
                    old(buf)@.len() as int
                } else {
                    u64::MAX - old(self).pos()
                };
                &&& r == Ok::<usize, std::io::Error>(n as usize)
                &&& final(buf)@.len() == old(buf)@.len()
                &&& final(buf)@.subrange(0, n) == xof_stream(old(self).node(), old(self).pos(), n as nat)
                &&& final(buf)@.subrange(n, old(buf)@.len() as int) == old(buf)@.subrange(n, old(buf)@.len() as int)
                &&& final(self).pos() == old(self).pos() + n
                &&& final(self).node().cv == old(self).node().cv
                &&& final(self).node().block == old(self).node().block
                &&& final(self).node().block_len == old(self).node().block_len
                &&& final(self).node().flags == old(self).node().flags
            }),
    {
        let room = u64::MAX - self.position();
        if buf.len() as u64 <= room {
            self.fill(buf);
            proof {
                assert(buf@.subrange(0, buf@.len() as int) =~= buf@);
            }
            Ok(buf.len())
        } else {
            let ghost before = buf@;
            let (head, tail) = buf.split_at_mut(room as usize);
            self.fill(head);
            proof {
                assert(final(tail)@ == before.subrange(room as int, before.len() as int));
            }
            Ok(room as usize)
        }
    }
}

/// Seeking in extended output through `std::io::Seek`: from the start, or
/// from the current position; seeking from the end is not supported, and
/// seeking before the start is an error. A position past the end of the
/// output stream is clamped to 2^64 - 1.
impl std::io::Seek for OutputReader {
    fn seek(&mut self, pos: std::io::SeekFrom) -> (r: std::io::Result<u64>)
        ensures
            ({
                let target: int = match pos {
                    std::io::SeekFrom::Start(x) => x as int,
                    std::io::SeekFrom::Current(x) => old(self).pos() + x,
                    std::io::SeekFrom::End(_) => -1,
                };
                &&& target < 0 ==> r is Err && crate::outside::io_error_kind(r->Err_0) == std::io::ErrorKind::InvalidInput
                    && *final(self) == *old(self)
                &&& target >= 0 ==> {
                    let p = if target < u64::MAX { target } else { u64::MAX as int };
                    &&& r == Ok::<u64, std::io::Error>(p as u64)
                    &&& final(self).pos() == p
                }
                &&& final(self).node().cv == old(self).node().cv
                &&& final(self).node().block == old(self).node().block
                &&& final(self).node().block_len == old(self).node().block_len
                &&& final(self).node().flags == old(self).node().flags
            }),
    {
        let max_position = u64::MAX as i128;
        let target_position: i128 = match pos {
            std::io::SeekFrom::Start(x) => x as i128,
            std::io::SeekFrom::Current(x) => self.position() as i128 + x as i128,
            std::io::SeekFrom::End(_) => {
                return Err(crate::outside::io_error_new(std::io::ErrorKind::InvalidInput, "seek from end not supported"));
            },
        };
        if target_position < 0 {
            return Err(crate::outside::io_error_new(std::io::ErrorKind::InvalidInput, "seek before start"));
        }
        let clamped = if target_position < max_position {
            target_position
        } else {
            max_position
        };
        self.set_position(clamped as u64);
        Ok(self.position())
    }
}

} // verus!

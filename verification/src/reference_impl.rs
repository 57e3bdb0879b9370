//! The simplified reference implementation of the hash function: portable,
//! with no SIMD and no multithreading, and with its own parameters — chunks
//! of 2048 bytes, a byte offset in place of the chunk counter, and its own
//! message schedule. Its root node is the fold of a stack of perfect
//! subtrees, which the proofs here follow step by step.

use crate::portable::g_spec;
use crate::platform::{word_at, words_of};
use vstd::prelude::*;

verus! {

/// The number of bytes of a hash.
pub const OUT_LEN: usize = 32;

/// The number of bytes of a key.
pub const KEY_LEN: usize = 32;

/// The number of bytes of a block.
pub const BLOCK_LEN: usize = 64;

/// The number of bytes of a chunk.
pub const CHUNK_LEN: usize = 2048;

/// The number of rounds of the compression function.
pub const ROUNDS: usize = 7;

/// The flag of the first block of a chunk.
pub const CHUNK_START: u32 = 1;

/// The flag of the last block of a chunk.
pub const CHUNK_END: u32 = 2;

/// The flag of a parent node.
pub const PARENT: u32 = 4;

/// The flag of the root node.
pub const ROOT: u32 = 8;

/// The flag of the keyed hash mode.
pub const KEYED_HASH: u32 = 16;

/// The flag of the key derivation mode.
pub const DERIVE_KEY: u32 = 32;

/// The initial chaining value of the default hash mode.
pub const IV: [u32; 8] = [
    0x6A09E667,
    0xBB67AE85,
    0x3C6EF372,
    0xA54FF53A,
    0x510E527F,
    0x9B05688C,
    0x1F83D9AB,
    0x5BE0CD19,
];

/// The order of the message words in each round.
pub const MSG_SCHEDULE: [[usize; 16]; 7] = [
    [0, 1, 2, 3, 4, 5, 6, 7, 8, 9, 10, 11, 12, 13, 14, 15],
    [14, 10, 4, 8, 9, 15, 13, 6, 1, 12, 0, 2, 11, 7, 5, 3],
    [11, 8, 12, 0, 5, 2, 15, 13, 10, 14, 3, 6, 7, 1, 9, 4],
    [7, 9, 3, 1, 13, 12, 11, 14, 2, 6, 5, 10, 4, 0, 15, 8],
    [9, 0, 5, 7, 2, 4, 10, 15, 14, 1, 11, 12, 6, 8, 3, 13],
    [2, 12, 6, 10, 0, 11, 8, 3, 4, 13, 7, 5, 15, 14, 1, 9],
    [12, 5, 1, 15, 14, 13, 4, 10, 0, 7, 6, 3, 9, 2, 8, 11],
];

/// Message word `i` of round `r`.
pub open spec fn ref_msg_word(m: Seq<u32>, r: int, i: int) -> u32 {
    m[MSG_SCHEDULE[r][i] as int]
}

/// One round: G on the four columns, then on the four diagonals.
#[verifier::opaque]
pub open spec fn ref_round_spec(s: Seq<u32>, m: Seq<u32>, r: int) -> Seq<u32> {
    let s = g_spec(s, 0, 4, 8, 12, ref_msg_word(m, r, 0), ref_msg_word(m, r, 1));
    let s = g_spec(s, 1, 5, 9, 13, ref_msg_word(m, r, 2), ref_msg_word(m, r, 3));
    let s = g_spec(s, 2, 6, 10, 14, ref_msg_word(m, r, 4), ref_msg_word(m, r, 5));
    let s = g_spec(s, 3, 7, 11, 15, ref_msg_word(m, r, 6), ref_msg_word(m, r, 7));
    let s = g_spec(s, 0, 5, 10, 15, ref_msg_word(m, r, 8), ref_msg_word(m, r, 9));
    let s = g_spec(s, 1, 6, 11, 12, ref_msg_word(m, r, 10), ref_msg_word(m, r, 11));
    let s = g_spec(s, 2, 7, 8, 13, ref_msg_word(m, r, 12), ref_msg_word(m, r, 13));
    g_spec(s, 3, 4, 9, 14, ref_msg_word(m, r, 14), ref_msg_word(m, r, 15))
}

/// The first `n` rounds applied to the state `s`.
pub open spec fn ref_rounds_spec(s: Seq<u32>, m: Seq<u32>, n: nat) -> Seq<u32>
    decreases n,
{
    if n == 0 {
        s
    } else {
        ref_round_spec(ref_rounds_spec(s, m, (n - 1) as nat), m, n - 1)
    }
}

/// The state before the rounds.
pub open spec fn ref_initial_state(cv: Seq<u32>, offset: u64, block_len: u32, flags: u32) -> Seq<u32> {
    seq![
        cv[0],
        cv[1],
        cv[2],
        cv[3],
        cv[4],
        cv[5],
        cv[6],
        cv[7],
        IV[0],
        IV[1],
        IV[2],
        IV[3],
        offset as u32,
        (offset >> 32u64) as u32,
        block_len,
        flags,
    ]
}

/// The 16 output words of the compression function.
pub open spec fn ref_compress_spec(cv: Seq<u32>, m: Seq<u32>, offset: u64, block_len: u32, flags: u32) -> Seq<u32> {
    let s = ref_rounds_spec(ref_initial_state(cv, offset, block_len, flags), m, 7);
    Seq::new(16, |i: int| if i < 8 { s[i] ^ s[i + 8] } else { s[i] ^ cv[i - 8] })
}

/// The first eight of the output words: a chaining value.
pub open spec fn ref_compress_cv(cv: Seq<u32>, m: Seq<u32>, offset: u64, block_len: u32, flags: u32) -> Seq<u32> {
    ref_compress_spec(cv, m, offset, block_len, flags).subrange(0, 8)
}

fn round(state: &mut [u32; 16], m: &[u32; 16], r: usize)
    requires
        r < 7,
    ensures
        final(state)@ == ref_round_spec(old(state)@, m@, r as int),
{
    proof {
        reveal(ref_round_spec);
    }
    let schedule = MSG_SCHEDULE[r];
    assert(forall|i: int| 0 <= i < 16 ==> schedule@[i] < 16);
    // Mix the columns.
    crate::portable::g(state, 0, 4, 8, 12, m[schedule[0]], m[schedule[1]]);
    crate::portable::g(state, 1, 5, 9, 13, m[schedule[2]], m[schedule[3]]);
    crate::portable::g(state, 2, 6, 10, 14, m[schedule[4]], m[schedule[5]]);
    crate::portable::g(state, 3, 7, 11, 15, m[schedule[6]], m[schedule[7]]);
    // Mix the diagonals.
    crate::portable::g(state, 0, 5, 10, 15, m[schedule[8]], m[schedule[9]]);
    crate::portable::g(state, 1, 6, 11, 12, m[schedule[10]], m[schedule[11]]);
    crate::portable::g(state, 2, 7, 8, 13, m[schedule[12]], m[schedule[13]]);
    crate::portable::g(state, 3, 4, 9, 14, m[schedule[14]], m[schedule[15]]);
}

fn compress(chaining_value: &[u32; 8], block_words: &[u32; 16], offset: u64, block_len: u32, flags: u32) -> (out: [u32;
    16])
    ensures
        out@ == ref_compress_spec(chaining_value@, block_words@, offset, block_len, flags),
{
    let mut state = [
        chaining_value[0],
        chaining_value[1],
        chaining_value[2],
        chaining_value[3],
        chaining_value[4],
        chaining_value[5],
        chaining_value[6],
        chaining_value[7],
        IV[0],
        IV[1],
        IV[2],
        IV[3],
        offset as u32,
        (offset >> 32) as u32,
        block_len,
        flags,
    ];
    let ghost s0 = state@;
    assert(s0 =~= ref_initial_state(chaining_value@, offset, block_len, flags));
    let mut r: usize = 0;
    while r < ROUNDS
        invariant
            r <= 7,
            state@ == ref_rounds_spec(s0, block_words@, r as nat),
        decreases 7 - r,
    {
        round(&mut state, block_words, r);
        r += 1;
    }
    let ghost s = state@;
    let mut i: usize = 0;
    while i < 8
        invariant
            i <= 8,
            s.len() == 16,
            forall|k: int| 0 <= k < i ==> #[trigger] state@[k] == s[k] ^ s[k + 8],
            forall|k: int| 8 <= k < 8 + i ==> #[trigger] state@[k] == s[k] ^ chaining_value@[k - 8],
            forall|k: int| i <= k < 8 ==> #[trigger] state@[k] == s[k],
            forall|k: int| 8 + i <= k < 16 ==> #[trigger] state@[k] == s[k],
        decreases 8 - i,
    {
        state[i] ^= state[i + 8];
        state[i + 8] ^= chaining_value[i];
        i += 1;
    }
    assert(state@ =~= ref_compress_spec(chaining_value@, block_words@, offset, block_len, flags));
    state
}

fn first_8_words(compression_output: [u32; 16]) -> (w: [u32; 8])
    ensures
        w@ == compression_output@.subrange(0, 8),
{
    let w = [
        compression_output[0],
        compression_output[1],
        compression_output[2],
        compression_output[3],
        compression_output[4],
        compression_output[5],
        compression_output[6],
        compression_output[7],
    ];
    assert(w@ =~= compression_output@.subrange(0, 8));
    w
}

/// Read little-endian words from `bytes` into `words`, as many as both
/// hold.
fn words_from_litte_endian_bytes(bytes: &[u8], words: &mut [u32])
    ensures
        final(words)@.len() == old(words)@.len(),
        forall|i: int|
            0 <= i < old(words)@.len() ==> #[trigger] final(words)@[i] == if i < bytes@.len() / 4 {
                word_at(bytes@, i)
            } else {
                old(words)@[i]
            },
{
    let n: usize = if bytes.len() / 4 < words.len() {
        bytes.len() / 4
    } else {
        words.len()
    };
    let mut i: usize = 0;
    while i < n
        invariant
            n <= bytes@.len() / 4,
            n <= words@.len(),
            i <= n,
            words@.len() == old(words)@.len(),
            forall|k: int| 0 <= k < i ==> #[trigger] words@[k] == word_at(bytes@, k),
            forall|k: int| i <= k < words@.len() ==> #[trigger] words@[k] == old(words)@[k],
        decreases n - i,
    {
        assert(4 * i + 3 < bytes@.len());
        assert(bytes@.len() == bytes.len());
        let w = (bytes[4 * i] as u32) | ((bytes[4 * i + 1] as u32) << 8u32) | ((bytes[4 * i + 2] as u32) << 16u32)
            | ((bytes[4 * i + 3] as u32) << 24u32);
        words[i] = w;
        i += 1;
    }
}

} // verus!

verus! {

/// A node just before the choice between a chaining value and root output:
/// the input chaining value, the block as words, the offset, the block
/// length and the flags.
pub struct RefOutputModel {
    pub cv: Seq<u32>,
    pub block: Seq<u32>,
    pub offset: u64,
    pub block_len: u32,
    pub flags: u32,
}

/// The chaining value of a non-root node.
pub open spec fn ref_output_cv(o: RefOutputModel) -> Seq<u32> {
    ref_compress_cv(o.cv, o.block, o.offset, o.block_len, o.flags)
}

/// Byte `i` of the root output of a node: output block `i / 64` is the
/// compression at byte offset `64 * (i / 64)` with the root flag, in
/// little-endian order.
pub open spec fn ref_root_byte(o: RefOutputModel, i: nat) -> u8 {
    let words = ref_compress_spec(o.cv, o.block, (64 * (i / 64)) as u64, o.block_len, o.flags | ROOT);
    crate::platform::byte_of(words[((i % 64) / 4) as int], (i % 4) as int)
}

/// `CHUNK_START` for the first block of a chunk, else nothing.
pub open spec fn ref_start_flag(k: nat) -> u32 {
    if k == 0 {
        CHUNK_START
    } else {
        0
    }
}

/// The chaining value inside a chunk after its first `k` blocks.
pub open spec fn ref_chunk_cv_after(key: Seq<u32>, input: Seq<u8>, offset: u64, flags: u32, k: nat) -> Seq<u32>
    decreases k,
{
    if k == 0 {
        key
    } else {
        ref_compress_cv(
            ref_chunk_cv_after(key, input, offset, flags, (k - 1) as nat),
            words_of(input.subrange(64 * (k - 1), 64 * k as int)),
            offset,
            64,
            flags | ref_start_flag((k - 1) as nat),
        )
    }
}

/// The output node of one chunk (at most 2048 bytes) at byte `offset`:
/// every block before the last is compressed; the last, zero-padded, is
/// never empty unless the whole chunk is.
pub open spec fn ref_chunk_output(key: Seq<u32>, input: Seq<u8>, offset: u64, flags: u32) -> RefOutputModel {
    let k = crate::model::blocks_before_last(input.len());
    RefOutputModel {
        cv: ref_chunk_cv_after(key, input, offset, flags, k),
        block: words_of(crate::model::pad_block(input.subrange(64 * k as int, input.len() as int))),
        offset,
        block_len: (input.len() - 64 * k) as u32,
        flags: flags | ref_start_flag(k) | CHUNK_END,
    }
}

/// A parent node over two child chaining values.
pub open spec fn ref_parent_output(left: Seq<u32>, right: Seq<u32>, key: Seq<u32>, flags: u32) -> RefOutputModel {
    RefOutputModel { cv: key, block: left + right, offset: 0, block_len: 64, flags: PARENT | flags }
}

/// A node just before the choice between a chaining value and root output.
struct Output {
    input_chaining_value: [u32; 8],
    block_words: [u32; 16],
    offset: u64,
    block_len: u32,
    flags: u32,
}

impl Output {
    spec fn model(&self) -> RefOutputModel {
        RefOutputModel {
            cv: self.input_chaining_value@,
            block: self.block_words@,
            offset: self.offset,
            block_len: self.block_len,
            flags: self.flags,
        }
    }

    fn chaining_value(&self) -> (cv: [u32; 8])
        ensures
            cv@ == ref_output_cv(self.model()),
    {
        first_8_words(compress(&self.input_chaining_value, &self.block_words, self.offset, self.block_len, self.flags))
    }

    /// Fill `out_slice` with root output bytes, block by block.
    fn root_output_bytes(&self, out_slice: &mut [u8])
        requires
            64 * ((old(out_slice)@.len() + 63) / 64) <= u64::MAX,
        ensures
            final(out_slice)@.len() == old(out_slice)@.len(),
            forall|i: int|
                0 <= i < final(out_slice)@.len() ==> #[trigger] final(out_slice)@[i] == ref_root_byte(
                    self.model(),
                    i as nat,
                ),
    {
        let n: usize = out_slice.len();
        let mut offset: u64 = 0;
        let mut pos: usize = 0;
        while pos < n
            invariant
                n == out_slice@.len(),
                pos <= n,
                pos < n ==> pos % 64 == 0,
                offset == 64 * ((pos + 63) / 64),
                64 * ((n + 63) / 64) <= u64::MAX,
                forall|i: int| 0 <= i < pos ==> #[trigger] out_slice@[i] == ref_root_byte(self.model(), i as nat),
            decreases n - pos,
        {
            let words = compress(
                &self.input_chaining_value,
                &self.block_words,
                offset,
                self.block_len,
                self.flags | ROOT,
            );
            let take: usize = if n - pos < 64 {
                n - pos
            } else {
                64
            };
            let mut j: usize = 0;
            while j < take
                invariant
                    n == out_slice@.len(),
                    pos % 64 == 0,
                    offset == pos,
                    j <= take,
                    take <= 64,
                    pos + take <= n,
                    words@ == ref_compress_spec(self.model().cv, self.model().block, offset, self.block_len, self.flags | ROOT),
                    forall|i: int| 0 <= i < pos + j ==> #[trigger] out_slice@[i] == ref_root_byte(self.model(), i as nat),
                decreases take - j,
            {
                proof {
                    let i = (pos + j) as nat;
                    assert(i / 64 == pos / 64);
                    assert(i % 64 == j);
                    assert(64 * (i / 64) == pos);
                }
                out_slice[pos + j] = (words[j / 4] >> ((8 * (j % 4)) as u32)) as u8;
                j += 1;
            }
            pos += take;
            assert(64 * ((pos + 63) / 64) <= 64 * ((n + 63) / 64));
            offset += 2 * OUT_LEN as u64;
        }
    }
}

} // verus!

verus! {

/// The state of hashing one chunk.
struct ChunkState {
    chaining_value: [u32; 8],
    offset: u64,
    block: [u8; BLOCK_LEN],
    block_len: u8,
    blocks_compressed: u8,
    flags: u32,
    /// The key the chunk started from.
    key: Ghost<Seq<u32>>,
    /// The chunk's bytes so far.
    input: Ghost<Seq<u8>>,
}

impl ChunkState {
    spec fn wf(&self) -> bool {
        &&& self.block_ok()
        &&& self.blocks_compressed as nat == crate::model::blocks_before_last(self.input@.len())
    }

    fn new(key: &[u32; 8], offset: u64, flags: u32) -> (s: Self)
        ensures
            s.wf(),
            s.key@ == key@,
            s.input@ == Seq::<u8>::empty(),
            s.offset == offset,
            s.flags == flags,
    {
        let s = Self {
            chaining_value: *key,
            offset,
            block: [0; BLOCK_LEN],
            block_len: 0,
            blocks_compressed: 0,
            flags,
            key: Ghost(key@),
            input: Ghost(Seq::empty()),
        };
        assert(s.block@ =~= crate::model::pad_block(Seq::<u8>::empty().subrange(0, 0)));
        s
    }

    fn len(&self) -> (n: usize)
        requires
            self.wf(),
        ensures
            n == self.input@.len(),
    {
        BLOCK_LEN * self.blocks_compressed as usize + self.block_len as usize
    }

    fn start_flag(&self) -> (f: u32)
        ensures
            f == ref_start_flag(self.blocks_compressed as nat),
    {
        if self.blocks_compressed == 0 {
            CHUNK_START
        } else {
            0
        }
    }

    /// Compress the full block in the buffer, which more input follows.
    fn compress_full_block(&mut self)
        requires
            old(self).wf(),
            old(self).block_len == 64,
        ensures
            final(self).input@ == old(self).input@,
            final(self).key@ == old(self).key@,
            final(self).offset == old(self).offset,
            final(self).flags == old(self).flags,
            final(self).block_len == 0,
            final(self).blocks_compressed == old(self).blocks_compressed + 1,
            final(self).block@ == Seq::new(64, |i: int| 0u8),
            final(self).chaining_value@ == ref_chunk_cv_after(
                old(self).key@,
                old(self).input@,
                old(self).offset,
                old(self).flags,
                (old(self).blocks_compressed + 1) as nat,
            ),
    {
        let ghost x = self.input@;
        let ghost bc = self.blocks_compressed as nat;
        let mut block_words = [0u32; 16];
        words_from_litte_endian_bytes(&self.block, &mut block_words);
        proof {
            assert(x.subrange(64 * bc as int, x.len() as int) =~= x.subrange(64 * bc as int, 64 * (bc + 1) as int));
            assert(crate::model::pad_block(x.subrange(64 * bc as int, x.len() as int)) =~= x.subrange(
                64 * bc as int,
                x.len() as int,
            ));
            assert(block_words@ =~= words_of(x.subrange(64 * bc as int, 64 * (bc + 1) as int)));
        }
        let flags = self.flags | self.start_flag();
        self.chaining_value = first_8_words(compress(&self.chaining_value, &block_words, self.offset, BLOCK_LEN as u32, flags));
        self.blocks_compressed += 1;
        self.block = [0; BLOCK_LEN];
        self.block_len = 0;
        proof {
            assert(self.block@ =~= Seq::new(64, |i: int| 0u8));
        }
    }

    /// Append `bytes` to the block buffer, which has room for them.
    fn fill_block(&mut self, bytes: &[u8])
        requires
            old(self).block_ok(),
            old(self).block_len + bytes@.len() <= 64,
            old(self).input@.len() + bytes@.len() <= CHUNK_LEN,
        ensures
            final(self).block_ok(),
            final(self).input@ == old(self).input@ + bytes@,
            final(self).blocks_compressed == old(self).blocks_compressed,
            final(self).block_len == old(self).block_len + bytes@.len(),
            final(self).key@ == old(self).key@,
            final(self).offset == old(self).offset,
            final(self).flags == old(self).flags,
    {
        let ghost x = self.input@;
        let ghost bc = self.blocks_compressed as nat;
        let ghost b0 = self.block@;
        let bl = self.block_len as usize;
        let mut t: usize = 0;
        while t < bytes.len()
            invariant
                t <= bytes@.len(),
                bl + bytes@.len() <= 64,
                bl == old(self).block_len,
                self.block@.len() == 64,
                self.chaining_value == old(self).chaining_value,
                self.blocks_compressed == old(self).blocks_compressed,
                self.block_len == old(self).block_len,
                self.offset == old(self).offset,
                self.flags == old(self).flags,
                self.key == old(self).key,
                self.input == old(self).input,
                forall|i: int| 0 <= i < bl ==> #[trigger] self.block@[i] == b0[i],
                forall|i: int| bl + t <= i < 64 ==> #[trigger] self.block@[i] == b0[i],
                forall|i: int| bl <= i < bl + t ==> #[trigger] self.block@[i] == bytes@[i - bl],
            decreases bytes@.len() - t,
        {
            self.block[bl + t] = bytes[t];
            t += 1;
        }
        self.block_len = (bl + bytes.len()) as u8;
        self.input = Ghost(x + bytes@);
        proof {
            let x2 = x + bytes@;
            assert(x2.subrange(0, x.len() as int) =~= x);
            let tail = x2.subrange(64 * bc as int, x2.len() as int);
            assert(tail.len() == bl + bytes@.len());
            assert forall|i: int| 0 <= i < 64 implies #[trigger] self.block@[i] == crate::model::pad_block(tail)[i] by {
                if i < bl {
                    assert(b0[i] == crate::model::pad_block(x.subrange(64 * bc as int, x.len() as int))[i]);
                    assert(tail[i] == x[64 * bc + i]);
                } else if i < bl + bytes@.len() {
                    assert(tail[i] == bytes@[i - bl]);
                } else {
                    assert(b0[i] == crate::model::pad_block(x.subrange(64 * bc as int, x.len() as int))[i]);
                }
            }
            assert(self.block@ =~= crate::model::pad_block(tail));
            lemma_cv_after_prefix(self.key@, x, x2, self.offset, self.flags, bc);
        }
    }

    /// Add bytes to the chunk, compressing each full block once more input
    /// follows it.
    fn update(&mut self, input: &[u8])
        requires
            old(self).wf(),
            old(self).input@.len() + input@.len() <= CHUNK_LEN,
        ensures
            final(self).wf(),
            final(self).input@ == old(self).input@ + input@,
            final(self).key@ == old(self).key@,
            final(self).offset == old(self).offset,
            final(self).flags == old(self).flags,
    {
        let mut input = input;
        let ghost total = self.input@ + input@;
        while input.len() > 0
            invariant
                self.wf(),
                self.input@ + input@ == total,
                total.len() <= CHUNK_LEN,
                self.key@ == old(self).key@,
                self.offset == old(self).offset,
                self.flags == old(self).flags,
            decreases input@.len(),
        {
            let ghost x = self.input@;
            if self.block_len as usize == BLOCK_LEN {
                self.compress_full_block();
                proof {
                    assert(x.subrange(64 * (x.len() / 64) as int, x.len() as int) =~= Seq::<u8>::empty());
                    assert(self.block@ =~= crate::model::pad_block(Seq::<u8>::empty()));
                }
            }
            let want = BLOCK_LEN - self.block_len as usize;
            let take = if want < input.len() {
                want
            } else {
                input.len()
            };
            let (head, rest) = input.split_at(take);
            self.fill_block(head);
            input = rest;
            proof {
                assert(x + head@ + rest@ =~= total);
            }
        }
        proof {
            assert(self.input@ =~= total);
        }
    }

    /// The block state: the bytes so far are `blocks_compressed` compressed
    /// blocks and the buffer, and the chaining value is after those blocks.
    spec fn block_ok(&self) -> bool {
        let x = self.input@;
        let bc = self.blocks_compressed as nat;
        &&& x.len() <= CHUNK_LEN
        &&& self.block_len <= 64
        &&& x.len() == 64 * bc + self.block_len
        &&& self.chaining_value@ == ref_chunk_cv_after(self.key@, x, self.offset, self.flags, bc)
        &&& self.block@ == crate::model::pad_block(x.subrange(64 * bc as int, x.len() as int))
    }
}

/// The chaining value after `k` blocks depends only on those blocks.
proof fn lemma_cv_after_prefix(key: Seq<u32>, x: Seq<u8>, y: Seq<u8>, offset: u64, flags: u32, k: nat)
    requires
        64 * k <= x.len() <= y.len(),
        y.subrange(0, x.len() as int) == x,
    ensures
        ref_chunk_cv_after(key, x, offset, flags, k) == ref_chunk_cv_after(key, y, offset, flags, k),
    decreases k,
{
    if k > 0 {
        lemma_cv_after_prefix(key, x, y, offset, flags, (k - 1) as nat);
        assert(x.subrange(64 * (k - 1), 64 * k as int) =~= y.subrange(64 * (k - 1), 64 * k as int));
    }
}

} // verus!

verus! {

impl ChunkState {
    fn output(&self) -> (o: Output)
        requires
            self.wf(),
        ensures
            o.model() == ref_chunk_output(self.key@, self.input@, self.offset, self.flags),
    {
        let mut block_words = [0u32; 16];
        words_from_litte_endian_bytes(&self.block, &mut block_words);
        proof {
            assert(block_words@ =~= words_of(self.block@));
        }
        Output {
            input_chaining_value: self.chaining_value,
            block_words,
            block_len: self.block_len as u32,
            offset: self.offset,
            flags: self.flags | self.start_flag() | CHUNK_END,
        }
    }
}

fn parent_output(left_child_cv: &[u32; 8], right_child_cv: &[u32; 8], key: &[u32; 8], flags: u32) -> (o: Output)
    ensures
        o.model() == ref_parent_output(left_child_cv@, right_child_cv@, key@, flags),
{
    let mut block_words = [0u32; 16];
    let mut i: usize = 0;
    while i < 8
        invariant
            i <= 8,
            forall|k: int| 0 <= k < i ==> #[trigger] block_words@[k] == left_child_cv@[k],
            forall|k: int| 8 <= k < 8 + i ==> #[trigger] block_words@[k] == right_child_cv@[k - 8],
        decreases 8 - i,
    {
        block_words[i] = left_child_cv[i];
        block_words[8 + i] = right_child_cv[i];
        i += 1;
    }
    proof {
        assert(block_words@ =~= left_child_cv@ + right_child_cv@);
    }
    Output { input_chaining_value: *key, block_words, offset: 0, block_len: BLOCK_LEN as u32, flags: PARENT | flags }
}

} // verus!

verus! {

/// The chaining value of the perfect subtree over the `size` chunks (a
/// power of two) of `x` from chunk `start` on: a chunk, or the parent of
/// the two halves.
pub open spec fn ref_block_cv(key: Seq<u32>, x: Seq<u8>, flags: u32, start: nat, size: nat) -> Seq<u32>
    decreases size,
{
    if size <= 1 {
        ref_output_cv(
            ref_chunk_output(key, x.subrange(2048int * start, 2048int * (start + 1)), (2048 * start) as u64, flags),
        )
    } else {
        ref_output_cv(
            ref_parent_output(
                ref_block_cv(key, x, flags, start, size / 2),
                ref_block_cv(key, x, flags, start + size / 2, size / 2),
                key,
                flags,
            ),
        )
    }
}

/// The number of chunks of an input of `len` bytes before its last chunk.
pub open spec fn ref_full_chunks(len: nat) -> nat {
    if len == 0 {
        0
    } else {
        ((len - 1) / 2048) as nat
    }
}

/// The chaining values of the perfect subtrees over the first `k` chunks:
/// one per set bit of `k`, the largest first.
pub open spec fn ref_stack_cvs(key: Seq<u32>, x: Seq<u8>, flags: u32, k: nat) -> Seq<Seq<u32>> {
    Seq::new(
        crate::stack::decomp(k).len(),
        |i: int| ref_block_cv(key, x, flags, crate::stack::decomp(k)[i].0, crate::stack::decomp(k)[i].1),
    )
}

/// Fold chaining values onto a last node: each becomes the left child of a
/// parent over what is to its right.
pub open spec fn ref_fold(cvs: Seq<Seq<u32>>, last: RefOutputModel, key: Seq<u32>, flags: u32) -> RefOutputModel
    decreases cvs.len(),
{
    if cvs.len() == 0 {
        last
    } else {
        ref_fold(cvs.drop_last(), ref_parent_output(cvs.last(), ref_output_cv(last), key, flags), key, flags)
    }
}

/// The root node of the tree over `x`: the last chunk, with the perfect
/// subtrees over the chunks before it folded on from the smallest.
pub open spec fn ref_root(key: Seq<u32>, x: Seq<u8>, flags: u32) -> RefOutputModel {
    let k = ref_full_chunks(x.len());
    ref_fold(
        ref_stack_cvs(key, x, flags, k),
        ref_chunk_output(key, x.subrange(2048 * k as int, x.len() as int), (2048 * k) as u64, flags),
        key,
        flags,
    )
}

/// Extending the input keeps the chaining value of every subtree within it.
proof fn lemma_block_cv_extend(key: Seq<u32>, x: Seq<u8>, y: Seq<u8>, flags: u32, start: nat, size: nat)
    requires
        size >= 1,
        2048 * (start + size) <= x.len() <= y.len(),
        y.subrange(0, x.len() as int) == x,
    ensures
        ref_block_cv(key, x, flags, start, size) == ref_block_cv(key, y, flags, start, size),
    decreases size,
{
    if size <= 1 {
        assert(x.subrange(2048int * start, 2048int * (start + 1)) =~= y.subrange(2048int * start, 2048int * (start + 1)));
    } else {
        lemma_block_cv_extend(key, x, y, flags, start, size / 2);
        lemma_block_cv_extend(key, x, y, flags, start + size / 2, size / 2);
    }
}

} // verus!

verus! {

/// The sizes of the blocks of `decomp(a)` are at least one chunk.
proof fn lemma_decomp_sizes(a: nat)
    ensures
        forall|i: int| 0 <= i < crate::stack::decomp(a).len() ==> #[trigger] crate::stack::decomp(a)[i].1 >= 1,
    decreases a,
{
    if a > 0 {
        crate::stack::lemma_lowbit_pos(a);
        let a2 = (a - crate::stack::lowbit(a)) as nat;
        lemma_decomp_sizes(a2);
        assert forall|i: int| 0 <= i < crate::stack::decomp(a).len() implies #[trigger] crate::stack::decomp(a)[i].1
            >= 1 by {
            if i < crate::stack::decomp(a2).len() {
                assert(crate::stack::decomp(a)[i] == crate::stack::decomp(a2)[i]);
            }
        }
    }
}

/// Doubling keeps the number of set bits.
proof fn lemma_popcount_double(m: nat)
    ensures
        crate::stack::popcount(2 * m) == crate::stack::popcount(m),
{
    if m > 0 {
        assert((2 * m) / 2 == m);
        assert((2 * m) % 2 == 0);
    }
}

/// `2048 * m` has the set bits of `m`.
proof fn lemma_popcount_2048(m: nat)
    ensures
        crate::stack::popcount(2048 * m) == crate::stack::popcount(m),
{
    lemma_popcount_double(m);
    lemma_popcount_double(2 * m);
    lemma_popcount_double(4 * m);
    lemma_popcount_double(8 * m);
    lemma_popcount_double(16 * m);
    lemma_popcount_double(32 * m);
    lemma_popcount_double(64 * m);
    lemma_popcount_double(128 * m);
    lemma_popcount_double(256 * m);
    lemma_popcount_double(512 * m);
    lemma_popcount_double(1024 * m);
}

/// A positive number has a set bit.
proof fn lemma_popcount_pos(m: nat)
    requires
        m > 0,
    ensures
        crate::stack::popcount(m) >= 1,
{
    crate::stack::lemma_lowbit_pos(m);
    crate::stack::lemma_popcount_lowbit(m);
}

} // verus!

verus! {

/// An incremental hasher that can accept any number of writes.
pub struct Hasher {
    chunk_state: ChunkState,
    key: [u32; 8],
    subtree_stack: [[u32; 8]; 53],
    subtree_stack_len: u8,
    /// Every byte hashed so far.
    input: Ghost<Seq<u8>>,
}

impl Hasher {
    /// The key words the hash state started from.
    pub closed spec fn key_words(self) -> Seq<u32> {
        self.key@
    }

    /// The mode flags.
    pub closed spec fn mode_flags(self) -> u32 {
        self.chunk_state.flags
    }

    /// Every byte hashed so far.
    pub closed spec fn hashed(self) -> Seq<u8> {
        self.input@
    }

    /// The number of chunks whose chaining values went onto the stack.
    closed spec fn pushed(self) -> nat {
        (self.chunk_state.offset / 2048) as nat
    }

    /// The stack holds the chaining values of the perfect subtrees of the
    /// first `k` chunks of `x`, one per set bit of `k`, the largest first.
    closed spec fn stack_holds(self, x: Seq<u8>, k: nat) -> bool {
        &&& self.subtree_stack_len as nat == crate::stack::popcount(k)
        &&& forall|i: int|
            0 <= i < crate::stack::popcount(k) ==> #[trigger] self.subtree_stack@[i]@ == ref_block_cv(
                self.key@,
                x,
                self.chunk_state.flags,
                crate::stack::decomp(k)[i].0,
                crate::stack::decomp(k)[i].1,
            )
    }

    pub closed spec fn wf(self) -> bool {
        let x = self.input@;
        let cs = self.chunk_state;
        let k = self.pushed();
        &&& cs.wf()
        &&& cs.key@ == self.key@
        &&& cs.offset % 2048 == 0
        &&& x.len() == 2048 * k + cs.input@.len()
        &&& x.subrange(2048 * k as int, x.len() as int) == cs.input@
        &&& k > 0 ==> cs.input@.len() > 0
        &&& x.len() <= u64::MAX
        &&& self.stack_holds(x, k)
    }

    fn push_stack(&mut self, cv: &[u32; 8])
        requires
            old(self).subtree_stack_len < 53,
        ensures
            final(self).subtree_stack_len == old(self).subtree_stack_len + 1,
            final(self).subtree_stack@ == old(self).subtree_stack@.update(old(self).subtree_stack_len as int, *cv),
            final(self).chunk_state == old(self).chunk_state,
            final(self).key == old(self).key,
            final(self).input == old(self).input,
    {
        self.subtree_stack[self.subtree_stack_len as usize] = *cv;
        self.subtree_stack_len += 1;
    }

    fn pop_stack(&mut self) -> (cv: [u32; 8])
        requires
            0 < old(self).subtree_stack_len <= 53,
        ensures
            final(self).subtree_stack_len == old(self).subtree_stack_len - 1,
            cv == old(self).subtree_stack@[final(self).subtree_stack_len as int],
            final(self).subtree_stack == old(self).subtree_stack,
            final(self).chunk_state == old(self).chunk_state,
            final(self).key == old(self).key,
            final(self).input == old(self).input,
    {
        self.subtree_stack_len -= 1;
        self.subtree_stack[self.subtree_stack_len as usize]
    }
}

} // verus!

verus! {

impl Hasher {
    /// Push the chaining value of chunk `k`, after merging every subtree it
    /// completes: the stack then has one value per set bit of the
    /// `total_bytes / 2048 == k + 1` chunks.
    fn push_chunk_chaining_value(
        &mut self,
        cv: [u32; 8],
        total_bytes: u64,
        Ghost(x): Ghost<Seq<u8>>,
        Ghost(k): Ghost<nat>,
    )
        requires
            old(self).stack_holds(x, k),
            total_bytes == 2048 * (k + 1),
            2048 * (k + 1) <= x.len(),
            x.len() <= u64::MAX,
            cv@ == ref_block_cv(old(self).key@, x, old(self).chunk_state.flags, k, 1),
        ensures
            final(self).stack_holds(x, k + 1),
            final(self).chunk_state == old(self).chunk_state,
            final(self).key == old(self).key,
            final(self).input == old(self).input,
    {
        let ghost key = self.key@;
        let ghost flags = self.chunk_state.flags;
        let final_stack_len = crate::hasher::count_ones(total_bytes) as u8;
        proof {
            lemma_popcount_2048(k + 1);
            lemma_popcount_pos(k + 1);
            lemma_chunks_fit(k + 1);
        }
        let mut cv = cv;
        let ghost mut m: nat = k;
        let ghost mut z: nat = 1;
        proof {
            assert(crate::stack::is_pow2(1));
        }
        while self.subtree_stack_len >= final_stack_len
            invariant
                m + z == k + 1,
                z >= 1,
                crate::stack::is_pow2(z),
                m % z == 0,
                final_stack_len == crate::stack::popcount(k + 1),
                1 <= crate::stack::popcount(k + 1) <= 53,
                k + 1 < crate::tree::exp2(53),
                self.stack_holds(x, m),
                self.key@ == key,
                self.chunk_state.flags == flags,
                self.chunk_state == old(self).chunk_state,
                self.key == old(self).key,
                self.input == old(self).input,
                2048 * (k + 1) <= x.len(),
                cv@ == ref_block_cv(key, x, flags, m, z),
            decreases self.subtree_stack_len,
        {
            proof {
                crate::stack::lemma_popcount_bound(m, 53);
                crate::stack::lemma_add_pow2(m, z);
                assert(m % (2 * z) != 0);
                assert(m > 0);
                crate::stack::lemma_lowbit_pos(m);
                crate::stack::lemma_decomp_len(m);
                crate::stack::lemma_popcount_lowbit(m);
            }
            let left = self.pop_stack();
            let ghost m2 = (m - z) as nat;
            proof {
                assert(crate::stack::decomp(m) == crate::stack::decomp(m2).push((m2, z)));
                assert(left@ == ref_block_cv(key, x, flags, m2, z));
            }
            cv = parent_output(&left, &cv, &self.key, self.chunk_state.flags).chaining_value();
            proof {
                assert((2 * z) / 2 == z);
                assert(cv@ == ref_block_cv(key, x, flags, m2, 2 * z));
                assert(m2 % (2 * z) == 0) by {
                    let q = m / z;
                    vstd::arithmetic::div_mod::lemma_fundamental_div_mod(m as int, z as int);
                    assert(m == q * z) by (nonlinear_arith)
                        requires
                            m == z * (m / z) + m % z,
                            m % z == 0,
                            q == m / z,
                    ;
                    assert(q % 2 == 1);
                    let q2 = (q - 1) / 2;
                    assert(m2 == q2 * (2 * z)) by (nonlinear_arith)
                        requires
                            m == q * z,
                            m2 == m - z,
                            q % 2 == 1,
                            q2 == (q - 1) / 2,
                            q >= 1,
                    ;
                    vstd::arithmetic::div_mod::lemma_mod_multiples_basic(q2 as int, (2 * z) as int);
                }
                assert(crate::stack::is_pow2(2 * z)) by {
                    assert((2 * z) / 2 == z);
                }
                assert forall|i: int| 0 <= i < crate::stack::popcount(m2) implies #[trigger] self.subtree_stack@[i]@
                    == ref_block_cv(key, x, flags, crate::stack::decomp(m2)[i].0, crate::stack::decomp(m2)[i].1) by {
                    assert(crate::stack::decomp(m)[i] == crate::stack::decomp(m2)[i]);
                }
                m = m2;
                z = 2 * z;
            }
        }
        proof {
            crate::stack::lemma_add_pow2(m, z);
            assert(m % (2 * z) == 0);
            crate::stack::lemma_decomp_len(m);
            assert(crate::stack::lowbit(m + z) == z);
            assert(crate::stack::decomp(k + 1) == crate::stack::decomp(m).push((m, z)));
        }
        self.push_stack(&cv);
        proof {
            assert forall|i: int| 0 <= i < crate::stack::popcount(k + 1) implies #[trigger] self.subtree_stack@[i]@
                == ref_block_cv(key, x, flags, crate::stack::decomp(k + 1)[i].0, crate::stack::decomp(k + 1)[i].1) by {
                if i < crate::stack::popcount(m) {
                    assert(crate::stack::decomp(k + 1)[i] == crate::stack::decomp(m)[i]);
                }
            }
        }
    }
}

} // verus!

verus! {

impl Hasher {
    fn new_internal(key: &[u32; 8], flags: u32) -> (h: Self)
        ensures
            h.wf(),
            h.key_words() == key@,
            h.mode_flags() == flags,
            h.hashed() == Seq::<u8>::empty(),
    {
        let h = Self {
            chunk_state: ChunkState::new(key, 0, flags),
            key: *key,
            subtree_stack: [[0; 8]; 53],
            subtree_stack_len: 0,
            input: Ghost(Seq::empty()),
        };
        proof {
            assert(h.input@.subrange(0, 0) =~= h.chunk_state.input@);
        }
        h
    }

    /// Construct a new `Hasher` for the default hash mode.
    pub fn new() -> (h: Self)
        ensures
            h.wf(),
            h.key_words() == IV@,
            h.mode_flags() == 0,
            h.hashed() == Seq::<u8>::empty(),
    {
        Self::new_internal(&IV, 0)
    }

    /// Construct a new `Hasher` for the keyed hash mode: the key words are
    /// the little-endian words of `key`, and the flags the keyed-hash flag.
    pub fn new_keyed(key: &[u8; KEY_LEN]) -> (h: Self)
        ensures
            h.wf(),
            h.key_words() == words_of(key@),
            h.mode_flags() == KEYED_HASH,
            h.hashed() == Seq::<u8>::empty(),
    {
        let mut key_words = [0u32; 8];
        words_from_litte_endian_bytes(key, &mut key_words);
        proof {
            assert(key_words@ =~= words_of(key@));
        }
        Self::new_internal(&key_words, KEYED_HASH)
    }

    /// Construct a new `Hasher` for the key derivation mode: the key words
    /// are the little-endian words of `key`, and the flags the derive-key
    /// flag.
    pub fn new_derive_key(key: &[u8; KEY_LEN]) -> (h: Self)
        ensures
            h.wf(),
            h.key_words() == words_of(key@),
            h.mode_flags() == DERIVE_KEY,
            h.hashed() == Seq::<u8>::empty(),
    {
        let mut key_words = [0u32; 8];
        words_from_litte_endian_bytes(key, &mut key_words);
        proof {
            assert(key_words@ =~= words_of(key@));
        }
        Self::new_internal(&key_words, DERIVE_KEY)
    }
}

} // verus!

verus! {

impl Hasher {
    /// Add input to the hash state. This can be called any number of times.
    pub fn update(&mut self, input: &[u8])
        requires
            old(self).wf(),
            old(self).hashed().len() + input@.len() <= u64::MAX,
        ensures
            final(self).wf(),
            final(self).hashed() == old(self).hashed() + input@,
            final(self).key_words() == old(self).key_words(),
            final(self).mode_flags() == old(self).mode_flags(),
    {
        let mut input = input;
        let ghost total = self.input@ + input@;
        while input.len() > 0
            invariant
                self.wf(),
                self.input@ + input@ == total,
                total.len() <= u64::MAX,
                self.key == old(self).key,
                self.chunk_state.flags == old(self).chunk_state.flags,
            decreases input@.len(),
        {
            if self.chunk_state.len() == CHUNK_LEN {
                self.finish_chunk();
                proof {
                    assert(self.input@.subrange(2048 * self.pushed() as int, self.input@.len() as int)
                        =~= self.chunk_state.input@);
                }
            }
            let ghost inp = input@;
            let want = CHUNK_LEN - self.chunk_state.len();
            let take = if want < input.len() {
                want
            } else {
                input.len()
            };
            let (head, rest) = input.split_at(take);
            self.extend_chunk(head);
            input = rest;
            proof {
                assert(head@ + rest@ =~= inp);
            }
        }
        proof {
            assert(self.input@ =~= total);
        }
    }

    /// The chunk state is full and more input follows: push its chaining
    /// value and start the next chunk.
    fn finish_chunk(&mut self)
        requires
            old(self).wf(),
            old(self).chunk_state.input@.len() == CHUNK_LEN,
            old(self).hashed().len() < u64::MAX,
        ensures
            final(self).chunk_state.wf(),
            final(self).chunk_state.key@ == final(self).key@,
            final(self).chunk_state.input@ == Seq::<u8>::empty(),
            final(self).chunk_state.offset % 2048 == 0,
            final(self).pushed() == old(self).pushed() + 1,
            final(self).hashed() == old(self).hashed(),
            final(self).hashed().len() == 2048 * final(self).pushed(),
            final(self).stack_holds(final(self).hashed(), final(self).pushed()),
            final(self).key == old(self).key,
            final(self).chunk_state.flags == old(self).chunk_state.flags,
    {
        let ghost x = self.input@;
        let ghost k = self.pushed();
        let chunk_cv = self.chunk_state.output().chaining_value();
        proof {
            assert(self.chunk_state.input@ == x.subrange(2048int * k, 2048int * (k + 1)));
        }
        let new_chunk_offset = self.chunk_state.offset + CHUNK_LEN as u64;
        self.push_chunk_chaining_value(chunk_cv, new_chunk_offset, Ghost(x), Ghost(k));
        let flags = self.chunk_state.flags;
        self.chunk_state = ChunkState::new(&self.key, new_chunk_offset, flags);
    }

    /// Add `bytes`, which fit the current chunk, to it; when the chunk is
    /// empty after a push, `bytes` is not.
    fn extend_chunk(&mut self, bytes: &[u8])
        requires
            old(self).chunk_state.wf(),
            old(self).chunk_state.key@ == old(self).key@,
            old(self).chunk_state.offset % 2048 == 0,
            old(self).hashed().len() == 2048 * old(self).pushed() + old(self).chunk_state.input@.len(),
            old(self).hashed().subrange(2048 * old(self).pushed() as int, old(self).hashed().len() as int)
                == old(self).chunk_state.input@,
            old(self).pushed() > 0 ==> old(self).chunk_state.input@.len() + bytes@.len() > 0,
            old(self).chunk_state.input@.len() + bytes@.len() <= CHUNK_LEN,
            old(self).stack_holds(old(self).hashed(), old(self).pushed()),
            old(self).hashed().len() + bytes@.len() <= u64::MAX,
        ensures
            final(self).wf(),
            final(self).hashed() == old(self).hashed() + bytes@,
            final(self).key == old(self).key,
            final(self).chunk_state.flags == old(self).chunk_state.flags,
    {
        let ghost x = self.input@;
        let ghost k = self.pushed();
        let ghost x2 = x + bytes@;
        self.chunk_state.update(bytes);
        self.input = Ghost(x2);
        proof {
            assert(x2.subrange(0, x.len() as int) =~= x);
            assert(x2.subrange(2048 * k as int, x2.len() as int) =~= self.chunk_state.input@);
            crate::stack::lemma_decomp_blocks(k);
            lemma_decomp_sizes(k);
            crate::stack::lemma_decomp_len(k);
            assert forall|i: int| 0 <= i < crate::stack::popcount(k) implies #[trigger] self.subtree_stack@[i]@
                == ref_block_cv(self.key@, x2, self.chunk_state.flags, crate::stack::decomp(k)[i].0, crate::stack::decomp(k)[i].1) by {
                let blk = crate::stack::decomp(k)[i];
                assert(blk.0 + blk.1 <= k);
                lemma_block_cv_extend(self.key@, x, x2, self.chunk_state.flags, blk.0, blk.1);
            }
        }
    }
}

} // verus!

verus! {

impl Hasher {
    /// Finalize the hash and write any number of output bytes: the root
    /// output of the tree over everything hashed.
    pub fn finalize(&self, out_slice: &mut [u8])
        requires
            self.wf(),
            64 * ((old(out_slice)@.len() + 63) / 64) <= u64::MAX,
        ensures
            final(out_slice)@.len() == old(out_slice)@.len(),
            forall|i: int|
                0 <= i < final(out_slice)@.len() ==> #[trigger] final(out_slice)@[i] == ref_root_byte(
                    ref_root(self.key_words(), self.hashed(), self.mode_flags()),
                    i as nat,
                ),
    {
        let ghost x = self.input@;
        let ghost k = self.pushed();
        let ghost key = self.key@;
        let ghost flags = self.chunk_state.flags;
        let ghost cvs = ref_stack_cvs(key, x, flags, k);
        proof {
            assert(k == ref_full_chunks(x.len()));
            crate::stack::lemma_decomp_len(k);
            lemma_chunks_fit(k);
        }
        // Starting with the output of the current chunk, compute the parents
        // along the right edge of the tree, up to the root.
        let mut output = self.chunk_state.output();
        let mut parent_nodes_remaining = self.subtree_stack_len as usize;
        proof {
            assert(cvs.subrange(0, parent_nodes_remaining as int) =~= cvs);
        }
        while parent_nodes_remaining > 0
            invariant
                parent_nodes_remaining <= cvs.len(),
                cvs.len() == crate::stack::popcount(k),
                cvs.len() <= 53,
                self.stack_holds(x, k),
                key == self.key@,
                flags == self.chunk_state.flags,
                cvs == ref_stack_cvs(key, x, flags, k),
                ref_fold(cvs.subrange(0, parent_nodes_remaining as int), output.model(), key, flags) == ref_root(
                    key,
                    x,
                    flags,
                ),
            decreases parent_nodes_remaining,
        {
            parent_nodes_remaining -= 1;
            let ghost r = parent_nodes_remaining as int;
            proof {
                assert(cvs.subrange(0, r + 1).drop_last() =~= cvs.subrange(0, r));
                assert(self.subtree_stack@[r]@ == cvs[r]);
            }
            let right = output.chaining_value();
            output = parent_output(&self.subtree_stack[parent_nodes_remaining], &right, &self.key, self.chunk_state.flags);
        }
        output.root_output_bytes(out_slice);
    }
}

} // verus!

verus! {

/// At most `2^53 - 1` chunks start below `2^64` bytes, so at most 53
/// subtrees are ever on the stack.
proof fn lemma_chunks_fit(k: nat)
    requires
        2048 * k <= u64::MAX,
    ensures
        k < crate::tree::exp2(53),
        crate::stack::popcount(k) <= 53,
{
    crate::stack::lemma_exp2_values();
    crate::stack::lemma_exp2_mul(11, 53);
    assert(crate::tree::exp2(11) == 2048) by {
        reveal_with_fuel(crate::tree::exp2, 12);
    }
    assert(k < crate::tree::exp2(53)) by (nonlinear_arith)
        requires
            2048 * k <= u64::MAX,
            crate::tree::exp2(11) * crate::tree::exp2(53) == crate::tree::exp2(64),
            crate::tree::exp2(11) == 2048,
            crate::tree::exp2(64) == 2 * crate::tree::exp2(63),
            crate::tree::exp2(63) == 0x8000_0000_0000_0000,
    ;
    crate::stack::lemma_popcount_bound(k, 53);
}

} // verus!

verus! {

/// The root node of the tree over `y`, whose first chunk is chunk `c` of the
/// whole input, as the hash function's tree is specified: one chunk is its
/// own root; more than one chunk is a parent whose left subtree holds the
/// largest power-of-two number of whole chunks that leaves at least one
/// byte for the right subtree.
pub open spec fn ref_tree(key: Seq<u32>, y: Seq<u8>, c: nat, flags: u32) -> RefOutputModel
    decreases y.len(),
{
    if y.len() <= 2048 {
        ref_chunk_output(key, y, (2048 * c) as u64, flags)
    } else {
        let l = 2048 * crate::model::pow2_floor(((y.len() - 1) / 2048) as nat);
        if 0 < l < y.len() {
            ref_parent_output(
                ref_output_cv(ref_tree(key, y.subrange(0, l as int), c, flags)),
                ref_output_cv(ref_tree(key, y.subrange(l as int, y.len() as int), c + l / 2048, flags)),
                key,
                flags,
            )
        } else {
            ref_chunk_output(key, y, (2048 * c) as u64, flags)
        }
    }
}

/// A tree over `s` whole chunks (a power of two) followed by no more than
/// that: a parent of the two parts.
proof fn lemma_ref_split(key: Seq<u32>, y: Seq<u8>, c: nat, flags: u32, s: nat)
    requires
        crate::stack::is_pow2(s),
        2048int * s < y.len() <= 4096int * s,
    ensures
        ref_tree(key, y, c, flags) == ref_parent_output(
            ref_output_cv(ref_tree(key, y.subrange(0, 2048int * s), c, flags)),
            ref_output_cv(ref_tree(key, y.subrange(2048int * s, y.len() as int), c + s, flags)),
            key,
            flags,
        ),
{
    crate::stack::lemma_pow2_exp2(s);
    let e = choose|e: nat| crate::tree::exp2(e) == s;
    let n = ((y.len() - 1) / 2048) as nat;
    assert(s <= n < 2 * s) by {
        vstd::arithmetic::div_mod::lemma_fundamental_div_mod((y.len() - 1) as int, 2048);
    }
    crate::lemma_pow2_floor_unique(n, e);
    assert((2048int * s) / 2048 == s);
}

/// The chaining value of the perfect subtree over `size` chunks of `x`
/// from chunk `start` is that of the tree over those chunks.
proof fn lemma_ref_tree_block(key: Seq<u32>, x: Seq<u8>, flags: u32, start: nat, size: nat)
    requires
        crate::stack::is_pow2(size),
        2048int * (start + size) <= x.len(),
    ensures
        ref_output_cv(ref_tree(key, x.subrange(2048int * start, 2048int * (start + size)), start, flags)) == ref_block_cv(
            key,
            x,
            flags,
            start,
            size,
        ),
    decreases size,
{
    if size > 1 {
        let h = size / 2;
        assert(crate::stack::is_pow2(h));
        let z = x.subrange(2048int * start, 2048int * (start + size));
        lemma_ref_split(key, z, start, flags, h);
        assert(z.subrange(0, 2048int * h) =~= x.subrange(2048int * start, 2048int * (start + h)));
        assert(z.subrange(2048int * h, z.len() as int) =~= x.subrange(2048int * (start + h), 2048int * (start + h + h)));
        assert(start + h + h == start + size);
        lemma_ref_tree_block(key, x, flags, start, h);
        lemma_ref_tree_block(key, x, flags, start + h, h);
    }
}

/// Folding the perfect subtrees over the first `a` chunks onto the tree over
/// the rest of the input (no longer than the smallest of them) gives the
/// tree over the whole input.
proof fn lemma_ref_fold_decomp(key: Seq<u32>, x: Seq<u8>, flags: u32, a: nat)
    requires
        x.len() > 2048int * a,
        a > 0 ==> x.len() <= 2048int * (a + crate::stack::lowbit(a)),
    ensures
        ref_fold(ref_stack_cvs(key, x, flags, a), ref_tree(key, x.subrange(2048int * a, x.len() as int), a, flags), key, flags)
            == ref_tree(key, x, 0, flags),
    decreases a,
{
    if a == 0 {
        assert(x.subrange(0, x.len() as int) =~= x);
        assert(ref_stack_cvs(key, x, flags, a).len() == 0);
    } else {
        crate::stack::lemma_lowbit_pos(a);
        let l = crate::stack::lowbit(a);
        let a2 = (a - l) as nat;
        let cvs = ref_stack_cvs(key, x, flags, a);
        assert(crate::stack::decomp(a) == crate::stack::decomp(a2).push((a2, l)));
        assert(cvs.drop_last() =~= ref_stack_cvs(key, x, flags, a2));
        assert(cvs.last() == ref_block_cv(key, x, flags, a2, l));
        let rest = x.subrange(2048int * a2, x.len() as int);
        lemma_ref_split(key, rest, a2, flags, l);
        assert(rest.subrange(0, 2048int * l) =~= x.subrange(2048int * a2, 2048int * (a2 + l)));
        assert(rest.subrange(2048int * l, rest.len() as int) =~= x.subrange(2048int * a, x.len() as int));
        lemma_ref_tree_block(key, x, flags, a2, l);
        if a2 > 0 {
            crate::stack::lemma_strip_lowbit(a);
            crate::stack::lemma_pow2_divides_le_lowbit(a2, 2 * l);
        }
        lemma_ref_fold_decomp(key, x, flags, a2);
    }
}

/// What the reference hasher finalizes, the fold of its stack of subtrees
/// onto the last chunk, is the root of the hash function's tree over the
/// hashed input: the left subtree of every parent holds the largest
/// power-of-two number of whole chunks that leaves input for the right.
pub proof fn law_reference_root_is_tree(key: Seq<u32>, x: Seq<u8>, flags: u32)
    ensures
        ref_root(key, x, flags) == ref_tree(key, x, 0, flags),
{
    let k = ref_full_chunks(x.len());
    if x.len() == 0 {
        assert(ref_stack_cvs(key, x, flags, k).len() == 0);
        assert(x.subrange(0, 0) =~= x);
    } else {
        assert(2048int * k < x.len() <= 2048int * (k + 1)) by {
            vstd::arithmetic::div_mod::lemma_fundamental_div_mod((x.len() - 1) as int, 2048);
        }
        if k > 0 {
            crate::stack::lemma_lowbit_pos(k);
        }
        lemma_ref_fold_decomp(key, x, flags, k);
    }
}

} // verus!

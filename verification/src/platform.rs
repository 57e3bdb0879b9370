//! Byte/word conversions and the choice of compression backend.

use vstd::prelude::*;

verus! {

/// The largest number of inputs that any backend hashes side by side.
pub const MAX_SIMD_DEGREE: usize = 16;

/// `MAX_SIMD_DEGREE`, but at least 2.
pub const MAX_SIMD_DEGREE_OR_2: usize = 16;

/// A compression backend. In this library every backend runs the same
/// portable kernels; they differ in how many inputs they take side by side.
#[allow(non_camel_case_types)]
#[derive(Clone, Copy, Debug, PartialEq, Eq, Structural)]
pub enum Platform {
    Portable,
    SSE2,
    SSE41,
    AVX2,
    AVX512,
    NEON,
    WASM32_SIMD,
}

impl Platform {
    /// Choose the widest backend that the given CPU features allow, preferring
    /// AVX-512, then AVX2, then SSE4.1, then SSE2, then the portable one.
    pub fn detect(
        avx512_detected: bool,
        avx2_detected: bool,
        sse41_detected: bool,
        sse2_detected: bool,
    ) -> (p: Self)
        ensures
            avx512_detected ==> p == Platform::AVX512,
            !avx512_detected && avx2_detected ==> p == Platform::AVX2,
            !avx512_detected && !avx2_detected && sse41_detected ==> p == Platform::SSE41,
            !avx512_detected && !avx2_detected && !sse41_detected && sse2_detected ==> p
                == Platform::SSE2,
            !avx512_detected && !avx2_detected && !sse41_detected && !sse2_detected ==> p
                == Platform::Portable,
    {
        if avx512_detected {
            return Platform::AVX512;
        }
        if avx2_detected {
            return Platform::AVX2;
        }
        if sse41_detected {
            return Platform::SSE41;
        }
        if sse2_detected {
            return Platform::SSE2;
        }
        Platform::Portable
    }

    pub open spec fn degree(self) -> nat {
        match self {
            Platform::Portable => 1,
            Platform::SSE2 => 4,
            Platform::SSE41 => 4,
            Platform::AVX2 => 8,
            Platform::AVX512 => 16,
            Platform::NEON => 4,
            Platform::WASM32_SIMD => 4,
        }
    }

    /// The number of inputs this backend hashes side by side.
    pub fn simd_degree(&self) -> (d: usize)
        ensures
            d == self.degree(),
            d == 1 || d == 4 || d == 8 || d == 16,
            d <= MAX_SIMD_DEGREE,
    {
        match self {
            Platform::Portable => 1,
            Platform::SSE2 => 4,
            Platform::SSE41 => 4,
            Platform::AVX2 => 8,
            Platform::AVX512 => 16,
            Platform::NEON => 4,
            Platform::WASM32_SIMD => 4,
        }
    }

    /// Compress one block in place with this backend.
    pub fn compress_in_place(
        &self,
        cv: &mut [u32; 8],
        block: &[u8; 64],
        block_len: u8,
        counter: u64,
        flags: u8,
    )
        ensures
            final(cv)@ == crate::portable::compress_cv(
                old(cv)@,
                block@,
                block_len as u32,
                counter,
                flags as u32,
            ),
    {
        match self {
            Platform::Portable | Platform::SSE2 | Platform::SSE41 | Platform::AVX2
            | Platform::AVX512 | Platform::NEON | Platform::WASM32_SIMD => {
                crate::portable::compress_in_place(cv, block, block_len, counter, flags)
            },
        }
    }

    /// Compress one block with this backend and return the 64 output bytes.
    pub fn compress_xof(
        &self,
        cv: &[u32; 8],
        block: &[u8; 64],
        block_len: u8,
        counter: u64,
        flags: u8,
    ) -> (out: [u8; 64])
        ensures
            out@ == crate::portable::compress_xof_bytes(
                cv@,
                block@,
                block_len as u32,
                counter,
                flags as u32,
            ),
    {
        match self {
            Platform::Portable | Platform::SSE2 | Platform::SSE41 | Platform::AVX2
            | Platform::AVX512 | Platform::NEON | Platform::WASM32_SIMD => {
                crate::portable::compress_xof(cv, block, block_len, counter, flags)
            },
        }
    }

    /// Hash many inputs of `input_len` bytes each with this backend. See
    /// [`crate::portable::hash_many`].
    pub fn hash_many(
        &self,
        inputs: &[u8],
        input_len: usize,
        key: &[u32; 8],
        counter: u64,
        increment_counter: crate::IncrementCounter,
        flags: u8,
        flags_start: u8,
        flags_end: u8,
        out: &mut [u8],
    )
        requires
            input_len > 0,
            input_len % 64 == 0,
            inputs@.len() as int % input_len as int == 0,
            old(out)@.len() >= (inputs@.len() as int / input_len as int) * 32,
            increment_counter == crate::IncrementCounter::Yes ==> counter + inputs@.len() as int
                / input_len as int <= u64::MAX,
        ensures
            final(out)@.len() == old(out)@.len(),
            forall|i: int|
                0 <= i < inputs@.len() as int / input_len as int ==> #[trigger] final(out)@.subrange(
                    i * 32,
                    i * 32 + 32,
                ) == bytes_of(
                    crate::portable::hash_many_cv(
                        inputs@,
                        input_len as nat,
                        key@,
                        counter,
                        increment_counter == crate::IncrementCounter::Yes,
                        flags,
                        flags_start,
                        flags_end,
                        i,
                    ),
                ),
            forall|k: int|
                (inputs@.len() as int / input_len as int) * 32 <= k < old(out)@.len() ==> final(out)@[k] == old(
                    out,
                )@[k],
    {
        match self {
            Platform::Portable | Platform::SSE2 | Platform::SSE41 | Platform::AVX2
            | Platform::AVX512 | Platform::NEON | Platform::WASM32_SIMD => {
                crate::portable::hash_many(
                    inputs,
                    input_len,
                    key,
                    counter,
                    increment_counter,
                    flags,
                    flags_start,
                    flags_end,
                    out,
                )
            },
        }
    }

    /// Fill `out`, whole blocks only, with extended output from block
    /// number `counter` on.
    pub fn xof_many(
        &self,
        cv: &[u32; 8],
        block: &[u8; 64],
        block_len: u8,
        counter: u64,
        flags: u8,
        out: &mut [u8],
    )
        requires
            old(out)@.len() % 64 == 0,
            counter + old(out)@.len() / 64 <= u64::MAX,
        ensures
            final(out)@.len() == old(out)@.len(),
            forall|k: int|
                0 <= k < final(out)@.len() ==> #[trigger] final(out)@[k] == crate::portable::xof_output_byte(
                    cv@,
                    block@,
                    block_len as u32,
                    counter,
                    flags as u32,
                    k as nat,
                ),
    {
        let n: usize = out.len();
        let mut counter = counter;
        let ghost c0 = counter;
        let mut pos: usize = 0;
        while pos < n
            invariant
                n == out@.len(),
                n % 64 == 0,
                pos % 64 == 0,
                pos <= n,
                counter == c0 + pos / 64,
                c0 + n / 64 <= u64::MAX,
                forall|k: int| 0 <= k < pos ==> #[trigger] out@[k] == crate::portable::xof_output_byte(cv@, block@, block_len as u32, c0, flags as u32, k as nat),
            decreases n - pos,
        {
            let out_block = self.compress_xof(cv, block, block_len, counter, flags);
            let mut i: usize = 0;
            while i < 64
                invariant
                    n == out@.len(),
                    i <= 64,
                    pos + 64 <= n,
                    pos % 64 == 0,
                    counter == c0 + pos / 64,
                    out_block@ == crate::portable::compress_xof_bytes(cv@, block@, block_len as u32, counter, flags as u32),
                    forall|k: int| 0 <= k < pos + i ==> #[trigger] out@[k] == crate::portable::xof_output_byte(cv@, block@, block_len as u32, c0, flags as u32, k as nat),
                decreases 64 - i,
            {
                proof {
                    let k = (pos + i) as nat;
                    assert(k / 64 == pos / 64);
                    assert(k % 64 == i);
                }
                out[pos + i] = out_block[i];
                i += 1;
            }
            pos += 64;
            counter += 1;
        }
    }

    pub fn portable() -> (p: Self)
        ensures
            p == Platform::Portable,
    {
        Self::Portable
    }

    pub fn sse2(detected: bool) -> (p: Option<Self>)
        ensures
            p == (if detected { Some(Platform::SSE2) } else { None::<Platform> }),
    {
        if detected {
            Some(Self::SSE2)
        } else {
            None
        }
    }

    pub fn sse41(detected: bool) -> (p: Option<Self>)
        ensures
            p == (if detected { Some(Platform::SSE41) } else { None::<Platform> }),
    {
        if detected {
            Some(Self::SSE41)
        } else {
            None
        }
    }

    pub fn avx2(detected: bool) -> (p: Option<Self>)
        ensures
            p == (if detected { Some(Platform::AVX2) } else { None::<Platform> }),
    {
        if detected {
            Some(Self::AVX2)
        } else {
            None
        }
    }

    pub fn avx512(detected: bool) -> (p: Option<Self>)
        ensures
            p == (if detected { Some(Platform::AVX512) } else { None::<Platform> }),
    {
        if detected {
            Some(Self::AVX512)
        } else {
            None
        }
    }

    /// NEON is assumed to be available wherever this backend is chosen.
    pub fn neon() -> (p: Option<Self>)
        ensures
            p == Some(Platform::NEON),
    {
        Some(Self::NEON)
    }

    /// WASM SIMD is assumed to be available wherever this backend is chosen.
    pub fn wasm32_simd() -> (p: Option<Self>)
        ensures
            p == Some(Platform::WASM32_SIMD),
    {
        Some(Self::WASM32_SIMD)
    }
}

/// The little-endian word made of the four bytes of `b` starting at `4 * i`.
pub open spec fn word_at(b: Seq<u8>, i: int) -> u32 {
    (b[4 * i] as u32) | ((b[4 * i + 1] as u32) << 8u32) | ((b[4 * i + 2] as u32) << 16u32) | ((
    b[4 * i + 3] as u32) << 24u32)
}

/// The little-endian words of a byte string whose length is a multiple of 4.
pub open spec fn words_of(b: Seq<u8>) -> Seq<u32> {
    Seq::new(b.len() / 4, |i: int| word_at(b, i))
}

/// Byte `k` (0 = least significant) of the word `w`.
pub open spec fn byte_of(w: u32, k: int) -> u8 {
    (w >> ((8 * k) as u32)) as u8
}

/// The little-endian bytes of a sequence of words.
pub open spec fn bytes_of(w: Seq<u32>) -> Seq<u8> {
    Seq::new(4 * w.len(), |i: int| byte_of(w[i / 4], i % 4))
}

/// Reassembling the four bytes of a word gives the word back.
pub proof fn lemma_word_bytes_roundtrip(w: u32)
    ensures
        ((byte_of(w, 0) as u32) | ((byte_of(w, 1) as u32) << 8u32) | ((byte_of(w, 2) as u32)
            << 16u32) | ((byte_of(w, 3) as u32) << 24u32)) == w,
{
    assert(((w >> 0u32) as u8 as u32) | (((w >> 8u32) as u8 as u32) << 8u32) | (((w
        >> 16u32) as u8 as u32) << 16u32) | (((w >> 24u32) as u8 as u32) << 24u32) == w)
        by (bit_vector);
}

/// Splitting a reassembled word gives the four bytes back.
pub proof fn lemma_bytes_word_roundtrip(b0: u8, b1: u8, b2: u8, b3: u8)
    ensures
        ({
            let w = (b0 as u32) | ((b1 as u32) << 8u32) | ((b2 as u32) << 16u32) | ((b3 as u32)
                << 24u32);
            byte_of(w, 0) == b0 && byte_of(w, 1) == b1 && byte_of(w, 2) == b2 && byte_of(w, 3)
                == b3
        }),
{
    let w = (b0 as u32) | ((b1 as u32) << 8u32) | ((b2 as u32) << 16u32) | ((b3 as u32) << 24u32);
    assert(((((b0 as u32) | ((b1 as u32) << 8u32) | ((b2 as u32) << 16u32) | ((b3 as u32)
        << 24u32)) >> 0u32) as u8) == b0) by (bit_vector);
    assert(((((b0 as u32) | ((b1 as u32) << 8u32) | ((b2 as u32) << 16u32) | ((b3 as u32)
        << 24u32)) >> 8u32) as u8) == b1) by (bit_vector);
    assert(((((b0 as u32) | ((b1 as u32) << 8u32) | ((b2 as u32) << 16u32) | ((b3 as u32)
        << 24u32)) >> 16u32) as u8) == b2) by (bit_vector);
    assert(((((b0 as u32) | ((b1 as u32) << 8u32) | ((b2 as u32) << 16u32) | ((b3 as u32)
        << 24u32)) >> 24u32) as u8) == b3) by (bit_vector);
}

/// Bytes to words and back is the identity (for lengths divisible by 4).
pub proof fn lemma_bytes_words_bytes(b: Seq<u8>)
    requires
        b.len() % 4 == 0,
    ensures
        bytes_of(words_of(b)) == b,
{
    let r = bytes_of(words_of(b));
    assert forall|i: int| 0 <= i < b.len() implies r[i] == b[i] by {
        let k = i / 4;
        lemma_bytes_word_roundtrip(b[4 * k], b[4 * k + 1], b[4 * k + 2], b[4 * k + 3]);
    }
    assert(r =~= b);
}

/// Words to bytes and back is the identity.
pub proof fn lemma_words_bytes_words(w: Seq<u32>)
    ensures
        words_of(bytes_of(w)) == w,
{
    let r = words_of(bytes_of(w));
    assert forall|i: int| 0 <= i < w.len() implies r[i] == w[i] by {
        lemma_word_bytes_roundtrip(w[i]);
    }
    assert(r =~= w);
}

fn word_from_bytes(b: &[u8], i: usize) -> (w: u32)
    requires
        i < 16,
        4 * i + 3 < b@.len(),
    ensures
        w == word_at(b@, i as int),
{
    (b[4 * i] as u32) | ((b[4 * i + 1] as u32) << 8u32) | ((b[4 * i + 2] as u32) << 16u32) | ((b[4
        * i + 3] as u32) << 24u32)
}

/// The eight little-endian words of 32 bytes.
pub fn words_from_le_bytes_32(bytes: &[u8; 32]) -> (out: [u32; 8])
    ensures
        out@ == words_of(bytes@),
{
    let mut out = [0u32; 8];
    let mut i: usize = 0;
    while i < 8
        invariant
            i <= 8,
            forall|k: int| 0 <= k < i ==> out@[k] == word_at(bytes@, k),
        decreases 8 - i,
    {
        out[i] = word_from_bytes(bytes, i);
        i += 1;
    }
    assert(out@ =~= words_of(bytes@));
    out
}

/// The sixteen little-endian words of 64 bytes.
pub fn words_from_le_bytes_64(bytes: &[u8; 64]) -> (out: [u32; 16])
    ensures
        out@ == words_of(bytes@),
{
    let mut out = [0u32; 16];
    let mut i: usize = 0;
    while i < 16
        invariant
            i <= 16,
            forall|k: int| 0 <= k < i ==> out@[k] == word_at(bytes@, k),
        decreases 16 - i,
    {
        out[i] = word_from_bytes(bytes, i);
        i += 1;
    }
    assert(out@ =~= words_of(bytes@));
    out
}

/// The 32 little-endian bytes of eight words.
pub fn le_bytes_from_words_32(words: &[u32; 8]) -> (out: [u8; 32])
    ensures
        out@ == bytes_of(words@),
{
    let mut out = [0u8; 32];
    let mut i: usize = 0;
    while i < 32
        invariant
            i <= 32,
            forall|k: int| 0 <= k < i ==> out@[k] == byte_of(words@[k / 4], k % 4),
        decreases 32 - i,
    {
        let w = words[i / 4];
        out[i] = (w >> ((8 * (i % 4)) as u32)) as u8;
        i += 1;
    }
    assert(out@ =~= bytes_of(words@));
    out
}

/// The 64 little-endian bytes of sixteen words.
pub fn le_bytes_from_words_64(words: &[u32; 16]) -> (out: [u8; 64])
    ensures
        out@ == bytes_of(words@),
{
    let mut out = [0u8; 64];
    let mut i: usize = 0;
    while i < 64
        invariant
            i <= 64,
            forall|k: int| 0 <= k < i ==> out@[k] == byte_of(words@[k / 4], k % 4),
        decreases 64 - i,
    {
        let w = words[i / 4];
        out[i] = (w >> ((8 * (i % 4)) as u32)) as u8;
        i += 1;
    }
    assert(out@ =~= bytes_of(words@));
    out
}

} // verus!

verus! {

/// Chaining values stored transposed: row `w` holds word `w` of each value,
/// one value per column, `2 * MAX_SIMD_DEGREE` columns.
#[derive(Clone, Copy)]
pub struct TransposedVectors(pub [[u32; 32]; 8]);

/// The chaining value in column `c` of transposed rows.
pub open spec fn rows_column(rows: [[u32; 32]; 8], c: int) -> Seq<u32> {
    Seq::new(8, |w: int| rows@[w]@[c])
}

/// The chaining value in column `c`.
pub open spec fn tv_column(tv: TransposedVectors, c: int) -> Seq<u32> {
    rows_column(tv.0, c)
}

/// The chaining value in column `c` of transposed rows, as an array.
pub fn rows_get_column(rows: &[[u32; 32]; 8], c: usize) -> (cv: [u32; 8])
    requires
        c < 32,
    ensures
        cv@ == rows_column(*rows, c as int),
{
    let mut cv = [0u32; 8];
    let mut w: usize = 0;
    while w < 8
        invariant
            w <= 8,
            c < 32,
            forall|k: int| 0 <= k < w ==> cv@[k] == rows@[k]@[c as int],
        decreases 8 - w,
    {
        cv[w] = rows[w][c];
        w += 1;
    }
    assert(cv@ =~= rows_column(*rows, c as int));
    cv
}

/// Store a chaining value in column `c` of transposed rows, leaving the
/// other columns as they were.
pub fn rows_set_column(rows: &mut [[u32; 32]; 8], c: usize, cv: &[u32; 8])
    requires
        c < 32,
    ensures
        rows_column(*final(rows), c as int) == cv@,
        forall|d: int| 0 <= d < 32 && d != c ==> rows_column(*final(rows), d) == rows_column(*old(rows), d),
{
    let mut w: usize = 0;
    while w < 8
        invariant
            w <= 8,
            c < 32,
            forall|k: int| 0 <= k < w ==> rows@[k]@[c as int] == cv@[k],
            forall|k: int, d: int| 0 <= k < 8 && 0 <= d < 32 && (d != c || k >= w) ==> rows@[k]@[d] == old(rows)@[k]@[d],
        decreases 8 - w,
    {
        let mut row = rows[w];
        row[c] = cv[w];
        rows[w] = row;
        w += 1;
    }
    assert(rows_column(*rows, c as int) =~= cv@);
    assert forall|d: int| 0 <= d < 32 && d != c implies rows_column(*rows, d) == rows_column(*old(rows), d) by {
        assert(rows_column(*rows, d) =~= rows_column(*old(rows), d));
    }
}

/// The chaining value in column `c`, as an array.
pub fn get_column(tv: &TransposedVectors, c: usize) -> (cv: [u32; 8])
    requires
        c < 32,
    ensures
        cv@ == tv_column(*tv, c as int),
{
    rows_get_column(&tv.0, c)
}

/// Store a chaining value in column `c`, leaving the other columns as
/// they were.
pub fn set_column(tv: &mut TransposedVectors, c: usize, cv: &[u32; 8])
    requires
        c < 32,
    ensures
        tv_column(*final(tv), c as int) == cv@,
        forall|d: int| 0 <= d < 32 && d != c ==> tv_column(*final(tv), d) == tv_column(*old(tv), d),
{
    let mut rows = tv.0;
    rows_set_column(&mut rows, c, cv);
    tv.0 = rows;
}

} // verus!

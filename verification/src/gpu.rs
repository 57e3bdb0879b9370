//! The host side of GPU hashing: the control uniform a BLAKE3 shader reads
//! for one level of the tree, and the sizes of the buffers of one shader
//! step.

use crate::{counter_high, counter_low, BLOCK_LEN, CHUNK_LEN, OUT_LEN};
use crate::tree::{exp2, holds_cvs, pair_up, pair_up_n};
use crate::join::Join;
use crate::platform::Platform;
use vstd::prelude::*;
use vstd::string::StringSliceAdditionalSpecFns;

verus! {

/// The local workgroup size of the shaders.
pub const WORKGROUP_SIZE: usize = 128;

/// The descriptor binding for the input buffer.
pub const INPUT_BUFFER_BINDING: u32 = 0;

/// The descriptor binding for the output buffer.
pub const OUTPUT_BUFFER_BINDING: u32 = 1;

/// The size of the control uniform: eleven 32-bit words.
pub const CONTROL_UNIFORM_SIZE: usize = 44;

/// Control uniform for the BLAKE3 shader: the key words, the chunk counter
/// as two 32-bit halves, and the flags, which is what a shader needs to hash
/// one level of the tree.
#[derive(Clone, Copy)]
pub struct GpuControl {
    k: [u32; 8],
    t: [u32; 2],
    d: u32,
}

impl GpuControl {
    /// The key words.
    pub closed spec fn key_spec(self) -> Seq<u32> {
        self.k@
    }

    /// The chunk counter.
    pub closed spec fn counter_spec(self) -> nat {
        (self.t[0] + self.t[1] * 0x1_0000_0000) as nat
    }

    /// The flags word.
    pub closed spec fn flags_spec(self) -> u32 {
        self.d
    }

    /// The control for hashing chunks from `chunk_counter` on with the given
    /// key and flags.
    pub fn new(key: &[u32; 8], chunk_counter: u64, flags: u8) -> (c: Self)
        ensures
            c.key_spec() == key@,
            c.counter_spec() == chunk_counter,
            c.flags_spec() == flags,
    {
        Self { k: *key, t: [counter_low(chunk_counter), counter_high(chunk_counter)], d: flags as u32 }
    }

    /// The same control, `chunks` chunks further on.
    pub fn plus_chunks(&self, chunks: u64) -> (c: Self)
        requires
            self.counter_spec() + chunks <= u64::MAX,
        ensures
            c.key_spec() == self.key_spec(),
            c.counter_spec() == self.counter_spec() + chunks,
            c.flags_spec() == self.flags_spec(),
    {
        let t = self.chunk_counter() + chunks;
        Self { k: self.k, t: [counter_low(t), counter_high(t)], d: self.d }
    }

    /// The key words.
    pub fn key(&self) -> (k: &[u32; 8])
        ensures
            k@ == self.key_spec(),
    {
        &self.k
    }

    /// The chunk counter.
    pub fn chunk_counter(&self) -> (c: u64)
        ensures
            c == self.counter_spec(),
    {
        let lo = self.t[0] as u64;
        let hi = self.t[1] as u64;
        proof {
            assert(lo | (hi << 32u64) == lo + hi * 0x1_0000_0000) by (bit_vector)
                requires
                    lo < 0x1_0000_0000,
                    hi < 0x1_0000_0000,
            ;
        }
        lo | (hi << 32u64)
    }

    /// The flags, as a byte.
    pub fn flags(&self) -> (f: u8)
        ensures
            f == self.flags_spec() as u8,
    {
        self.d as u8
    }

    /// The bytes to copy to the control uniform of the GPU: the eleven words
    /// in little-endian order, key first, then the counter halves, then the
    /// flags.
    pub fn as_bytes(&self) -> (b: [u8; CONTROL_UNIFORM_SIZE])
        ensures
            b@ == crate::platform::bytes_of(
                self.key_spec() + seq![
                    (self.counter_spec() % 0x1_0000_0000) as u32,
                    (self.counter_spec() / 0x1_0000_0000) as u32,
                    self.flags_spec(),
                ],
            ),
    {
        let mut b = [0u8; CONTROL_UNIFORM_SIZE];
        let words: [u32; 11] = [
            self.k[0],
            self.k[1],
            self.k[2],
            self.k[3],
            self.k[4],
            self.k[5],
            self.k[6],
            self.k[7],
            self.t[0],
            self.t[1],
            self.d,
        ];
        let ghost ws = self.key_spec() + seq![self.t[0], self.t[1], self.d];
        proof {
            assert((self.counter_spec() % 0x1_0000_0000) as u32 == self.t[0]);
            assert((self.counter_spec() / 0x1_0000_0000) as u32 == self.t[1]);
            assert(ws =~= self.key_spec() + seq![
                (self.counter_spec() % 0x1_0000_0000) as u32,
                (self.counter_spec() / 0x1_0000_0000) as u32,
                self.flags_spec(),
            ]);
        }
        assert(words@ =~= ws);
        let mut i: usize = 0;
        while i < 44
            invariant
                i <= 44,
                words@ == ws,
                forall|j: int| 0 <= j < i ==> b@[j] == crate::platform::byte_of(ws[j / 4], j % 4),
            decreases 44 - i,
        {
            let w = words[i / 4];
            b[i] = (w >> ((8 * (i % 4)) as u32)) as u8;
            i += 1;
        }
        assert(b@ =~= crate::platform::bytes_of(ws));
        b
    }
}

/// One step of GPU hashing: a number of workgroups of the chunk shader or of
/// the parent shader.
#[derive(Debug, Clone, Copy)]
pub enum GpuStep {
    Blake3Chunk(u32),
    Blake3Parent(u32),
}

impl GpuStep {
    /// The number of workgroups.
    pub fn group_count(&self) -> (n: u32)
        ensures
            n == match *self {
                GpuStep::Blake3Chunk(g) => g,
                GpuStep::Blake3Parent(g) => g,
            },
    {
        match *self {
            GpuStep::Blake3Chunk(group_count) => group_count,
            GpuStep::Blake3Parent(group_count) => group_count,
        }
    }

    /// The size of a workgroup.
    pub fn workgroup_size(&self) -> (n: u32)
        ensures
            n == WORKGROUP_SIZE,
    {
        WORKGROUP_SIZE as u32
    }

    /// The number of shader invocations.
    pub fn invocation_count(&self) -> (n: usize)
        requires
            self.group_count_spec() * WORKGROUP_SIZE <= usize::MAX,
        ensures
            n == self.group_count_spec() * WORKGROUP_SIZE,
    {
        self.group_count() as usize * self.workgroup_size() as usize
    }

    /// The number of workgroups.
    pub open spec fn group_count_spec(self) -> nat {
        match self {
            GpuStep::Blake3Chunk(g) => g as nat,
            GpuStep::Blake3Parent(g) => g as nat,
        }
    }

    /// The input bytes of one invocation: a chunk, or a parent block.
    pub open spec fn input_size_spec(self) -> nat {
        match self {
            GpuStep::Blake3Chunk(_) => CHUNK_LEN as nat,
            GpuStep::Blake3Parent(_) => BLOCK_LEN as nat,
        }
    }

    /// The input bytes of one invocation.
    pub fn invocation_input_size(&self) -> (n: usize)
        ensures
            n == self.input_size_spec(),
    {
        match *self {
            GpuStep::Blake3Chunk(_) => CHUNK_LEN,
            GpuStep::Blake3Parent(_) => BLOCK_LEN,
        }
    }

    /// The output bytes of one invocation: one chaining value.
    pub fn invocation_output_size(&self) -> (n: usize)
        ensures
            n == OUT_LEN,
    {
        OUT_LEN
    }

    /// The size of the input buffer of the step.
    pub fn input_buffer_size(&self) -> (n: usize)
        requires
            self.group_count_spec() * WORKGROUP_SIZE * self.input_size_spec() <= usize::MAX,
        ensures
            n == self.group_count_spec() * WORKGROUP_SIZE * self.input_size_spec(),
    {
        proof {
            assert(self.group_count_spec() * WORKGROUP_SIZE <= self.group_count_spec() * WORKGROUP_SIZE
                * self.input_size_spec()) by (nonlinear_arith)
                requires
                    self.input_size_spec() >= 1,
            ;
        }
        self.invocation_count() * self.invocation_input_size()
    }

    /// The size of the output buffer of the step.
    pub fn output_buffer_size(&self) -> (n: usize)
        requires
            self.group_count_spec() * WORKGROUP_SIZE * OUT_LEN <= usize::MAX,
        ensures
            n == self.group_count_spec() * WORKGROUP_SIZE * OUT_LEN,
    {
        self.invocation_count() * self.invocation_output_size()
    }
}

/// What waiting for a GPU task found: whether it produced output, and
/// whether more work is pending.
#[derive(Clone, Copy, Debug, Default, Eq, PartialEq)]
pub struct GpuTaskWaitResult {
    pub has_output: bool,
    pub has_more: bool,
}

} // verus!

verus! {

/// The chaining values of `n` consecutive blocks of `s` chunks each of `y`,
/// the first block starting at chunk number `counter`.
pub open spec fn block_cvs(key: Seq<u32>, y: Seq<u8>, counter: nat, flags: u8, n: nat, s: nat) -> Seq<Seq<u32>> {
    Seq::new(
        n,
        |i: int| crate::model::subtree_cv(key, y.subrange(1024 * s * i, 1024 * s * (i + 1)), (counter + s * i) as nat, flags),
    )
}

/// One layer of parents over the chaining values of blocks of `s` chunks
/// (a power of two) gives the chaining values of blocks of `2 * s` chunks.
pub proof fn lemma_pair_up_blocks(key: Seq<u32>, y: Seq<u8>, counter: nat, flags: u8, n: nat, s: nat)
    requires
        crate::stack::is_pow2(s),
        n % 2 == 0,
        y.len() >= 1024 * s * n,
    ensures
        crate::tree::pair_up(block_cvs(key, y, counter, flags, n, s), key, flags) == block_cvs(
            key,
            y,
            counter,
            flags,
            n / 2,
            2 * s,
        ),
{
    let w = block_cvs(key, y, counter, flags, n, s);
    let v = block_cvs(key, y, counter, flags, n / 2, 2 * s);
    let pw = crate::tree::pair_up(w, key, flags);
    assert forall|i: int| 0 <= i < n / 2 implies pw[i] == v[i] by {
        let a = 1024 * s * (2 * i);
        assert(1024 * (2 * s) * i == a) by (nonlinear_arith)
            requires
                a == 1024 * s * (2 * i),
        ;
        assert(1024 * s * (2 * i + 1) == a + 1024 * s) by (nonlinear_arith)
            requires
                a == 1024 * s * (2 * i),
        ;
        assert(1024 * s * (2 * i + 2) == a + 2048 * s) by (nonlinear_arith)
            requires
                a == 1024 * s * (2 * i),
        ;
        assert(1024 * (2 * s) * (i + 1) == a + 2048 * s) by (nonlinear_arith)
            requires
                a == 1024 * s * (2 * i),
        ;
        assert(s * (2 * i + 1) == s * (2 * i) + s) by (nonlinear_arith);
        assert((2 * s) * i == s * (2 * i)) by (nonlinear_arith);
        assert(a + 2048 * s <= y.len()) by (nonlinear_arith)
            requires
                a == 1024 * s * (2 * i),
                0 <= i < n / 2,
                n % 2 == 0,
                y.len() >= 1024 * s * n,
        ;
        assert(a >= 0) by (nonlinear_arith)
            requires
                a == 1024 * s * (2 * i),
                i >= 0,
        ;
        let z = y.subrange(a, a + 2048 * s);
        assert(s >= 1) by {
            crate::stack::lemma_pow2_exp2(s);
            let e = choose|e: nat| crate::tree::exp2(e) == s;
            crate::tree::lemma_exp2_pos(e);
        }
        crate::stack::lemma_split_pow2(key, z, (counter + s * (2 * i)) as nat, flags, s);
        assert(z.subrange(0, 1024int * s) =~= y.subrange(a, a + 1024 * s));
        assert(z.subrange(1024int * s, z.len() as int) =~= y.subrange(a + 1024 * s, a + 2048 * s));
        assert(2 * i + 1 < w.len());
    }
    assert(pw =~= v);
}

/// `t` layers of parents over the chaining values of `2^p` blocks of `s`
/// chunks give the chaining values of `2^(p - t)` blocks of `s * 2^t`
/// chunks.
pub proof fn lemma_pair_up_n_blocks(key: Seq<u32>, y: Seq<u8>, counter: nat, flags: u8, p: nat, s: nat, t: nat)
    requires
        crate::stack::is_pow2(s),
        t <= p,
        y.len() >= 1024 * s * crate::tree::exp2(p),
    ensures
        crate::tree::pair_up_n(block_cvs(key, y, counter, flags, crate::tree::exp2(p), s), key, flags, t)
            == block_cvs(key, y, counter, flags, crate::tree::exp2((p - t) as nat), s * crate::tree::exp2(t)),
    decreases t,
{
    if t == 0 {
        assert(crate::tree::exp2(0) == 1);
        assert(s * 1 == s);
    } else {
        let t1 = (t - 1) as nat;
        lemma_pair_up_n_blocks(key, y, counter, flags, p, s, t1);
        let n1 = crate::tree::exp2((p - t1) as nat);
        let s1 = s * crate::tree::exp2(t1);
        let k = (p - t) as nat;
        assert(n1 == 2 * crate::tree::exp2(k));
        assert(crate::tree::exp2(t) == 2 * crate::tree::exp2(t1));
        assert(crate::stack::is_pow2(s1)) by {
            crate::stack::lemma_pow2_exp2(s);
            let e = choose|e: nat| crate::tree::exp2(e) == s;
            crate::stack::lemma_exp2_mul(e, t1);
            crate::stack::lemma_exp2_is_pow2(e + t1);
        }
        assert(y.len() >= 1024 * s1 * n1) by {
            crate::stack::lemma_exp2_mul(t1, (p - t1) as nat);
            assert(t1 + (p - t1) == p);
            assert(1024 * s1 * n1 == 1024 * s * crate::tree::exp2(p)) by (nonlinear_arith)
                requires
                    s1 == s * crate::tree::exp2(t1),
                    crate::tree::exp2(t1) * n1 == crate::tree::exp2(p),
            ;
        }
        lemma_pair_up_blocks(key, y, counter, flags, n1, s1);
        assert(2 * s1 == s * crate::tree::exp2(t)) by (nonlinear_arith)
            requires
                s1 == s * crate::tree::exp2(t1),
                crate::tree::exp2(t) == 2 * crate::tree::exp2(t1),
        ;
    }
}

} // verus!

verus! {

/// The number of layers of parents that the wide hashing of `2^p` chaining
/// values (`p >= 1`) forms, with `d` values hashed side by side: one layer
/// when the values fit one pass, else the layers of each half, plus one
/// more unless the halves came down to one value each.
pub open spec fn wide_layers(p: nat, d: nat) -> nat
    decreases p,
{
    if p <= 1 || exp2(p) <= 2 * d {
        1
    } else {
        let t = wide_layers((p - 1) as nat, d);
        if t == p - 1 {
            t
        } else {
            t + 1
        }
    }
}

proof fn lemma_wide_layers(p: nat, d: nat)
    requires
        p >= 1,
        d >= 1,
    ensures
        1 <= wide_layers(p, d) <= p,
        p >= 2 ==> wide_layers(p, d) <= p - 1,
        exp2((p - wide_layers(p, d)) as nat) <= (if d > 2 { d } else { 2 }),
    decreases p,
{
    if p <= 1 || exp2(p) <= 2 * d {
        if p == 1 {
            assert(exp2(0) == 1);
        } else {
            assert(exp2(p) == 2 * exp2((p - 1) as nat));
        }
    } else {
        lemma_wide_layers((p - 1) as nat, d);
        let t = wide_layers((p - 1) as nat, d);
        if t == p - 1 {
            assert(exp2(1) == 2) by {
                assert(exp2(0) == 1);
            }
        }
    }
}

} // verus!

verus! {

/// Like the wide hashing of a subtree, but from `2^p` chaining values (the
/// output of a shader) instead of input bytes: forms `wide_layers` layers of
/// parents, recursing on both halves (potentially in parallel) while there
/// are more values than one pass takes. Returns the number of values
/// written to `out`.
fn compress_parents_wide<J: Join>(
    input: &[u8],
    key: &[u32; 8],
    flags: u8,
    platform: Platform,
    out: &mut [u8],
    Ghost(w): Ghost<Seq<Seq<u32>>>,
    Ghost(p): Ghost<nat>,
) -> (n: usize)
    requires
        p >= 1,
        w.len() == exp2(p),
        input@.len() == 32 * w.len(),
        holds_cvs(input@, w),
        old(out)@.len() >= 32 * exp2((p - wide_layers(p, platform.degree())) as nat),
    ensures
        n == exp2((p - wide_layers(p, platform.degree())) as nat),
        final(out)@.len() == old(out)@.len(),
        holds_cvs(final(out)@, pair_up_n(w, key@, flags, wide_layers(p, platform.degree()))),
    decreases p,
{
    let ghost d = platform.degree();
    let sd = platform.simd_degree();
    proof {
        lemma_wide_layers(p, d);
        crate::tree::lemma_exp2_pos(p);
    }
    if input.len() <= sd * BLOCK_LEN {
        proof {
            assert(wide_layers(p, d) == 1);
            assert(pair_up_n(w, key@, flags, 0) == w);
            assert(pair_up_n(w, key@, flags, 1) == pair_up(w, key@, flags));
            if p == 1 {
                assert(exp2(1) == 2) by {
                    assert(exp2(0) == 1);
                }
            }
            assert(exp2(p) == 2 * exp2((p - 1) as nat));
        }
        return crate::compress_parents_parallel(input, key, flags, platform, out, Ghost(w));
    }
    let ghost p1 = (p - 1) as nat;
    let ghost h = exp2(p1);
    let ghost wl = w.subrange(0, h as int);
    let ghost wr = w.subrange(h as int, w.len() as int);
    let ghost t1 = wide_layers(p1, d);
    proof {
        assert(exp2(p) == 2 * h);
        assert(p >= 2) by {
            if p == 1 {
                assert(exp2(1) == 2) by {
                    assert(exp2(0) == 1);
                }
            }
        }
        lemma_wide_layers(p1, d);
        crate::tree::lemma_exp2_pos(p1);
    }
    let half = input.len() / 2;
    let (left, right) = input.split_at(half);
    proof {
        assert(half == 32 * h);
        lemma_holds_cvs_split(input@, w, h as int);
        assert(left@ == input@.subrange(0, 32 * h as int));
        assert(right@ == input@.subrange(32 * h as int, input@.len() as int));
    }
    // Recurse on both halves, potentially in parallel.
    let left_job = move || -> (r: (usize, [u8; 512]))
        requires
            p1 >= 1,
            wl.len() == exp2(p1),
            left@.len() == 32 * wl.len(),
            holds_cvs(left@, wl),
            512 >= 32 * exp2((p1 - wide_layers(p1, platform.degree())) as nat),
        ensures
            r.0 == exp2((p1 - wide_layers(p1, platform.degree())) as nat),
            holds_cvs(r.1@, pair_up_n(wl, key@, flags, wide_layers(p1, platform.degree()))),
    {
        let mut buf = [0u8; 512];
        let n = compress_parents_wide::<J>(left, key, flags, platform, &mut buf, Ghost(wl), Ghost(p1));
        (n, buf)
    };
    let right_job = move || -> (r: (usize, [u8; 512]))
        requires
            p1 >= 1,
            wr.len() == exp2(p1),
            right@.len() == 32 * wr.len(),
            holds_cvs(right@, wr),
            512 >= 32 * exp2((p1 - wide_layers(p1, platform.degree())) as nat),
        ensures
            r.0 == exp2((p1 - wide_layers(p1, platform.degree())) as nat),
            holds_cvs(r.1@, pair_up_n(wr, key@, flags, wide_layers(p1, platform.degree()))),
    {
        let mut buf = [0u8; 512];
        let n = compress_parents_wide::<J>(right, key, flags, platform, &mut buf, Ghost(wr), Ghost(p1));
        (n, buf)
    };
    let ((left_n, left_buf), (right_n, right_buf)) = J::join(left_job, right_job, left.len(), right.len());
    let ghost a = pair_up_n(wl, key@, flags, t1);
    let ghost b = pair_up_n(wr, key@, flags, t1);
    let mut cv_array = [0u8; 1024];
    crate::copy_into(&left_buf, &mut cv_array, 0, left_n * OUT_LEN);
    let ghost mid = cv_array@;
    crate::copy_into(&right_buf, &mut cv_array, left_n * OUT_LEN, 512);
    proof {
        crate::tree::lemma_pair_up_n_len_pow(wl, key@, flags, p1, t1);
        crate::tree::lemma_pair_up_n_len_pow(wr, key@, flags, p1, t1);
        lemma_holds_cvs_pair(cv_array@, mid, left_buf@, right_buf@, a, b);
        assert(wl + wr =~= w);
        crate::tree::lemma_pair_up_n_concat(wl, wr, key@, flags, p1, t1);
    }
    if left_n == 1 {
        crate::copy_cvs(&cv_array, out, 2, Ghost(a + b));
        proof {
            assert(t1 == p1);
            assert(wide_layers(p, d) == t1);
            assert((p - t1) as nat == 1);
            assert(exp2(1) == 2) by {
                assert(exp2(0) == 1);
            }
            assert((a + b).subrange(0, 2) =~= a + b);
        }
        return 2;
    }
    let num_children = left_n + right_n;
    let (children, _) = cv_array.split_at(num_children * OUT_LEN);
    proof {
        assert(t1 != p1) by {
            if t1 == p1 {
                assert(exp2(0) == 1);
            }
        }
        assert(wide_layers(p, d) == t1 + 1);
        crate::tree::lemma_exp2_pos((p1 - t1) as nat);
        assert(a.len() <= 16 && b.len() == a.len() && a.len() >= 1);
        assert(2 <= (a + b).len());
        assert((a + b).len() <= 2 * crate::platform::MAX_SIMD_DEGREE_OR_2);
        assert(holds_cvs(children@, a + b)) by {
            assert forall|i: int| 0 <= i < (a + b).len() implies #[trigger] children@.subrange(32 * i, 32 * i + 32)
                == crate::platform::bytes_of((a + b)[i]) by {
                assert(children@.subrange(32 * i, 32 * i + 32) =~= cv_array@.subrange(32 * i, 32 * i + 32));
            }
        }
        assert(pair_up_n(w, key@, flags, t1 + 1) == pair_up(a + b, key@, flags));
        assert((p - (t1 + 1)) as nat == (p1 - t1) as nat);
    }
    crate::compress_parents_parallel(children, key, flags, platform, out, Ghost(a + b))
}

} // verus!

verus! {

/// The bytes that hold `w` hold its two parts.
proof fn lemma_holds_cvs_split(b: Seq<u8>, w: Seq<Seq<u32>>, h: int)
    requires
        holds_cvs(b, w),
        b.len() == 32 * w.len(),
        0 <= h <= w.len(),
    ensures
        holds_cvs(b.subrange(0, 32 * h), w.subrange(0, h)),
        holds_cvs(b.subrange(32 * h, b.len() as int), w.subrange(h, w.len() as int)),
{
    let l = b.subrange(0, 32 * h);
    let r = b.subrange(32 * h, b.len() as int);
    let wl = w.subrange(0, h);
    let wr = w.subrange(h, w.len() as int);
    assert forall|i: int| 0 <= i < wl.len() implies #[trigger] l.subrange(32 * i, 32 * i + 32)
        == crate::platform::bytes_of(wl[i]) by {
        assert(l.subrange(32 * i, 32 * i + 32) =~= b.subrange(32 * i, 32 * i + 32));
    }
    assert forall|i: int| 0 <= i < wr.len() implies #[trigger] r.subrange(32 * i, 32 * i + 32)
        == crate::platform::bytes_of(wr[i]) by {
        assert(r.subrange(32 * i, 32 * i + 32) =~= b.subrange(32 * (i + h), 32 * (i + h) + 32));
        assert(wr[i] == w[i + h]);
    }
    assert forall|i: int| 0 <= i < wl.len() implies (#[trigger] wl[i]).len() == 8 by {
        assert(wl[i] == w[i]);
    }
    assert forall|i: int| 0 <= i < wr.len() implies (#[trigger] wr[i]).len() == 8 by {
        assert(wr[i] == w[i + h]);
    }
}

/// Copying the values `a` from the front of one buffer, and then a whole
/// buffer holding `b` right behind them, leaves `a + b` at the front.
proof fn lemma_holds_cvs_pair(
    arr: Seq<u8>,
    mid: Seq<u8>,
    lbuf: Seq<u8>,
    rbuf: Seq<u8>,
    a: Seq<Seq<u32>>,
    b: Seq<Seq<u32>>,
)
    requires
        arr.len() == 1024,
        mid.len() == 1024,
        rbuf.len() == 512,
        32 * a.len() + 512 <= 1024,
        holds_cvs(lbuf, a),
        holds_cvs(rbuf, b),
        mid.subrange(0, 32 * a.len() as int) == lbuf.subrange(0, 32 * a.len() as int),
        arr.subrange(32 * a.len() as int, 32 * a.len() as int + 512) == rbuf.subrange(0, 512),
        forall|k: int| 0 <= k < 1024 && !(32 * a.len() <= k < 32 * a.len() + 512) ==> arr[k] == mid[k],
    ensures
        holds_cvs(arr, a + b),
{
    let m: int = 32 * a.len() as int;
    let lo = lbuf.subrange(0, m);
    assert forall|k: int| 0 <= k < m implies arr[k] == lo[k] by {
        assert(mid.subrange(0, m)[k] == mid[k]);
    }
    assert forall|k: int| m <= k < m + 512 implies arr[k] == rbuf[k - m] by {
        assert(arr.subrange(m, m + 512)[k - m] == arr[k]);
    }
    assert(holds_cvs(lo, a)) by {
        assert forall|i: int| 0 <= i < a.len() implies #[trigger] lo.subrange(32 * i, 32 * i + 32)
            == crate::platform::bytes_of(a[i]) by {
            assert(lo.subrange(32 * i, 32 * i + 32) =~= lbuf.subrange(32 * i, 32 * i + 32));
        }
    }
    assert(arr.subrange(0, m + 512) =~= lo + rbuf);
    crate::lemma_holds_cvs_concat(lo, rbuf, a, b);
    let c = lo + rbuf;
    assert forall|i: int| 0 <= i < (a + b).len() implies #[trigger] arr.subrange(32 * i, 32 * i + 32)
        == crate::platform::bytes_of((a + b)[i]) by {
        assert(arr.subrange(32 * i, 32 * i + 32) =~= c.subrange(32 * i, 32 * i + 32));
    }
}

} // verus!

verus! {

/// Condense `2^p` chaining values (`p >= 2`) down to the two children of
/// their root, and return those two as one 64-byte block.
pub(crate) fn compress_parents_to_parent_node<J: Join>(
    input: &[u8],
    key: &[u32; 8],
    flags: u8,
    platform: Platform,
    Ghost(w): Ghost<Seq<Seq<u32>>>,
    Ghost(p): Ghost<nat>,
) -> (block: [u8; BLOCK_LEN])
    requires
        p >= 2,
        w.len() == exp2(p),
        input@.len() == 32 * w.len(),
        holds_cvs(input@, w),
    ensures
        block@ == crate::platform::bytes_of(pair_up_n(w, key@, flags, (p - 1) as nat)[0])
            + crate::platform::bytes_of(pair_up_n(w, key@, flags, (p - 1) as nat)[1]),
{
    let ghost d = platform.degree();
    let sd = platform.simd_degree();
    let ghost t0 = wide_layers(p, d);
    proof {
        lemma_wide_layers(p, d);
        crate::tree::lemma_exp2_pos((p - t0) as nat);
        assert(exp2((p - t0) as nat) <= 16);
    }
    let mut cv_array = [0u8; 1024];
    let mut num_cvs = compress_parents_wide::<J>(input, key, flags, platform, &mut cv_array, Ghost(w), Ghost(p));
    let ghost mut t: nat = t0;
    proof {
        if num_cvs < 2 {
            assert((p - t0) as nat == 0) by {
                if (p - t0) as nat > 0 {
                    crate::tree::lemma_exp2_pos((p - t0 - 1) as nat);
                    assert(exp2((p - t0) as nat) == 2 * exp2((p - t0 - 1) as nat));
                }
            }
        }
    }
    // Condense the list into 2 values by forming parent nodes repeatedly.
    let mut out_array = [0u8; 256];
    while num_cvs > 2
        invariant
            p >= 2,
            w.len() == exp2(p),
            1 <= t <= p - 1,
            num_cvs == exp2((p - t) as nat),
            2 <= num_cvs <= 16,
            holds_cvs(cv_array@, pair_up_n(w, key@, flags, t)),
        decreases num_cvs,
    {
        let ghost cur = pair_up_n(w, key@, flags, t);
        let ghost k = (p - t - 1) as nat;
        proof {
            crate::tree::lemma_pair_up_n_len_pow(w, key@, flags, p, t);
            assert(exp2((p - t) as nat) == 2 * exp2(k));
            crate::tree::lemma_exp2_pos(k);
            if k == 0 {
                assert(exp2(0) == 1);
            }
        }
        let (cv_slice, _) = cv_array.split_at(num_cvs * OUT_LEN);
        proof {
            assert forall|i: int| 0 <= i < cur.len() implies #[trigger] cv_slice@.subrange(32 * i, 32 * i + 32)
                == crate::platform::bytes_of(cur[i]) by {
                assert(cv_slice@.subrange(32 * i, 32 * i + 32) =~= cv_array@.subrange(32 * i, 32 * i + 32));
            }
        }
        num_cvs = crate::compress_parents_parallel(cv_slice, key, flags, platform, &mut out_array, Ghost(cur));
        crate::copy_cvs(&out_array, &mut cv_array, num_cvs, Ghost(pair_up(cur, key@, flags)));
        proof {
            t = t + 1;
            assert(pair_up(cur, key@, flags).subrange(0, num_cvs as int) =~= pair_up(cur, key@, flags));
            assert(num_cvs == exp2(k));
            assert((p - t) as nat == k);
            assert(k >= 1) by {
                if k == 0 {
                    assert(exp2(0) == 1);
                }
            }
        }
    }
    proof {
        assert(t == p - 1) by {
            if t < p - 1 {
                let k = (p - t - 1) as nat;
                crate::tree::lemma_exp2_pos(k);
                assert(exp2((p - t) as nat) == 2 * exp2(k));
                if k > 0 {
                    crate::tree::lemma_exp2_pos((k - 1) as nat);
                    assert(exp2(k) == 2 * exp2((k - 1) as nat));
                }
            }
        }
        crate::tree::lemma_pair_up_n_len_pow(w, key@, flags, p, t);
    }
    let ghost two = pair_up_n(w, key@, flags, t);
    proof {
        let i0: int = 0;
        let i1: int = 1;
        assert(cv_array@.subrange(32 * i0, 32 * i0 + 32) == crate::platform::bytes_of(two[i0]));
        assert(cv_array@.subrange(32 * i1, 32 * i1 + 32) == crate::platform::bytes_of(two[i1]));
    }
    let mut block = [0u8; BLOCK_LEN];
    let mut k: usize = 0;
    while k < 64
        invariant
            k <= 64,
            cv_array@.len() == 1024,
            cv_array@.subrange(0, 32) == crate::platform::bytes_of(two[0]),
            cv_array@.subrange(32, 64) == crate::platform::bytes_of(two[1]),
            forall|q: int| 0 <= q < k ==> block@[q] == cv_array@[q],
        decreases 64 - k,
    {
        block[k] = cv_array[k];
        k += 1;
    }
    proof {
        assert(block@ =~= cv_array@.subrange(0, 32) + cv_array@.subrange(32, 64));
    }
    block
}

} // verus!

verus! {

/// `parents` holds what a shader computes for the hash state `h` over the
/// `chunk_count` whole chunks `y` that follow what `h` hashed: the chaining
/// values of `parents.len() / 32` equal consecutive blocks of `y`.
pub open spec fn shader_parents(h: crate::Hasher, y: Seq<u8>, chunk_count: nat, parents: Seq<u8>) -> bool {
    let n = parents.len() / 32;
    &&& y.len() == 1024 * chunk_count
    &&& holds_cvs(
        parents,
        block_cvs(h.key_words(), y, h.offset_chunks() + h.hashed().len() / 1024, h.mode_flags(), n, chunk_count / n),
    )
}

} // verus!

verus! {

/// For `chunk_count` chunks `y` (a power of two) given as `n > 2` block
/// values, `n` dividing `chunk_count`: `n` is `2^p` with `p >= 2`, and
/// `p - 1` layers over the block values give the two children of the
/// subtree over `y`.
pub(crate) proof fn lemma_shader_pair(key: Seq<u32>, y: Seq<u8>, counter: nat, flags: u8, cc: nat, n: nat) -> (p: nat)
    requires
        crate::stack::is_pow2(cc),
        n > 2,
        cc % n == 0,
        y.len() == 1024 * cc,
    ensures
        exp2(p) == n,
        p >= 2,
        block_cvs(key, y, counter, flags, n, cc / n).len() == exp2(p),
        pair_up_n(block_cvs(key, y, counter, flags, n, cc / n), key, flags, (p - 1) as nat)[0]
            == crate::model::subtree_cv(key, y.subrange(0, 1024int * (cc / 2)), counter, flags),
        pair_up_n(block_cvs(key, y, counter, flags, n, cc / n), key, flags, (p - 1) as nat)[1]
            == crate::model::subtree_cv(key, y.subrange(1024int * (cc / 2), 2048int * (cc / 2)), counter + cc / 2, flags),
{
    let sz = cc / n;
    let half = cc / 2;
    crate::stack::lemma_pow2_divisor(cc, n);
    crate::stack::lemma_pow2_div(cc, n);
    crate::stack::lemma_pow2_exp2(n);
    let p = choose|e: nat| exp2(e) == n;
    assert(p >= 2) by {
        reveal_with_fuel(exp2, 3);
    }
    let p1 = (p - 1) as nat;
    assert(exp2(p) == 2 * exp2(p1));
    assert(cc == n * sz);
    assert(y.len() >= 1024 * sz * exp2(p)) by (nonlinear_arith)
        requires
            y.len() == 1024 * cc,
            cc == n * sz,
            exp2(p) == n,
    ;
    lemma_pair_up_n_blocks(key, y, counter, flags, p, sz, p1);
    assert((p - p1) as nat == 1);
    assert(exp2(1) == 2) by {
        assert(exp2(0) == 1);
    }
    assert(cc % 2 == 0 && half * 2 == cc) by {
        assert(crate::stack::is_pow2(2)) by {
            reveal_with_fuel(crate::stack::is_pow2, 2);
        }
        crate::stack::lemma_pow2_divides(2, n);
        assert(n % 2 == 0);
        assert(cc == n * sz);
        assert(cc % 2 == 0) by (nonlinear_arith)
            requires
                cc == n * sz,
                n % 2 == 0,
        {
            vstd::arithmetic::div_mod::lemma_mul_mod_noop(n as int, sz as int, 2);
        }
    }
    assert(sz * exp2(p1) == half) by (nonlinear_arith)
        requires
            cc == n * sz,
            n == 2 * exp2(p1),
            half * 2 == cc,
    ;
    let two = block_cvs(key, y, counter, flags, 2, half);
    assert(1024 * half * 0 == 0);
    assert(1024 * half * (0 + 1) == 1024 * half);
    assert(half * 0 == 0);
    assert(1024 * half * 1 == 1024 * half);
    assert(1024 * half * (1 + 1) == 2048 * half) by (nonlinear_arith);
    assert(half * 1 == half);
    p
}

} // verus!

verus! {

/// The chaining values of the parents over the `count` blocks of two
/// chaining values each in `input`.
pub open spec fn parent_layer(key: Seq<u32>, input: Seq<u8>, flags: u8, count: nat) -> Seq<Seq<u32>> {
    Seq::new(
        count,
        |i: int|
            crate::tree::parent_cv(
                crate::platform::words_of(input.subrange(64 * i, 64 * i + 32)),
                crate::platform::words_of(input.subrange(64 * i + 32, 64 * i + 64)),
                key,
                flags,
            ),
    )
}

/// Over bytes that hold chaining values, the parent layer is one layer of
/// the tree over those values.
pub proof fn lemma_parent_layer_pairs(key: Seq<u32>, input: Seq<u8>, flags: u8, w: Seq<Seq<u32>>)
    requires
        holds_cvs(input, w),
        w.len() % 2 == 0,
    ensures
        parent_layer(key, input, flags, w.len() / 2) == pair_up(w, key, flags),
{
    let l = parent_layer(key, input, flags, w.len() / 2);
    let r = pair_up(w, key, flags);
    assert forall|i: int| 0 <= i < l.len() implies l[i] == r[i] by {
        lemma_parent_at(key, input, flags, w, i);
    }
    assert(l =~= r);
}

proof fn lemma_held_cv(input: Seq<u8>, w: Seq<Seq<u32>>, k: int)
    requires
        holds_cvs(input, w),
        0 <= k < w.len(),
    ensures
        crate::platform::words_of(input.subrange(32 * k, 32 * k + 32)) == w[k],
{
    assert(input.subrange(32 * k, 32 * k + 32) == crate::platform::bytes_of(w[k]));
    assert(w[k].len() == 8);
    crate::platform::lemma_words_bytes_words(w[k]);
}

proof fn lemma_parent_at(key: Seq<u32>, input: Seq<u8>, flags: u8, w: Seq<Seq<u32>>, i: int)
    requires
        holds_cvs(input, w),
        w.len() % 2 == 0,
        0 <= i < w.len() / 2,
    ensures
        parent_layer(key, input, flags, w.len() / 2)[i] == pair_up(w, key, flags)[i],
{
    lemma_held_cv(input, w, 2 * i);
    lemma_held_cv(input, w, 2 * i + 1);
    assert(32 * (2 * i) == 64 * i);
    assert(32 * (2 * i + 1) == 64 * i + 32);
}

/// Append `r` to `l`.
fn append_bytes(l: &mut Vec<u8>, r: &Vec<u8>)
    ensures
        final(l)@ == old(l)@ + r@,
{
    let mut i: usize = 0;
    while i < r.len()
        invariant
            i <= r@.len(),
            l@ == old(l)@ + r@.subrange(0, i as int),
        decreases r@.len() - i,
    {
        l.push(r[i]);
        i += 1;
        proof {
            assert(r@.subrange(0, i as int) =~= r@.subrange(0, i - 1) + seq![r@[i - 1]]);
        }
    }
    proof {
        assert(r@.subrange(0, r@.len() as int) =~= r@);
    }
}

/// What the chunk shader computes over `count` whole chunks of `input` from
/// chunk `counter` on: the chaining value of each chunk. Splits the work in
/// halves, potentially in parallel, while there are more chunks than one
/// pass of `platform` takes.
fn chunk_shader_cvs<J: Join>(
    platform: Platform,
    count: usize,
    input: &[u8],
    key: &[u32; 8],
    counter: u64,
    flags: u8,
) -> (out: Vec<u8>)
    requires
        input@.len() == 1024 * count,
        counter + count <= u64::MAX,
    ensures
        out@.len() == 32 * count,
        holds_cvs(out@, block_cvs(key@, input@, counter as nat, flags, count as nat, 1)),
    decreases count,
{
    if count > platform.simd_degree() {
        let mid = count / 2;
        assert(mid * 1024 <= input@.len()) by (nonlinear_arith)
            requires
                mid == count / 2,
                input@.len() == 1024 * count,
        ;
        assert(input@.len() == input.len());
        let (left_in, right_in) = input.split_at(mid * CHUNK_LEN);
        let right_counter = counter + mid as u64;
        let rest = count - mid;
        let left_job = move || -> (r: Vec<u8>)
            requires
                left_in@.len() == 1024 * mid,
                counter + mid <= u64::MAX,
            ensures
                r@.len() == 32 * mid,
                holds_cvs(r@, block_cvs(key@, left_in@, counter as nat, flags, mid as nat, 1)),
        { chunk_shader_cvs::<J>(platform, mid, left_in, key, counter, flags) };
        let right_job = move || -> (r: Vec<u8>)
            requires
                right_in@.len() == 1024 * rest,
                right_counter + rest <= u64::MAX,
            ensures
                r@.len() == 32 * rest,
                holds_cvs(r@, block_cvs(key@, right_in@, right_counter as nat, flags, rest as nat, 1)),
        { chunk_shader_cvs::<J>(platform, rest, right_in, key, right_counter, flags) };
        let (mut out, right_out) = J::join(left_job, right_job, left_in.len(), right_in.len());
        let ghost a = block_cvs(key@, left_in@, counter as nat, flags, mid as nat, 1);
        let ghost b = block_cvs(key@, right_in@, right_counter as nat, flags, rest as nat, 1);
        let ghost lo = out@;
        append_bytes(&mut out, &right_out);
        proof {
            crate::lemma_holds_cvs_concat(lo, right_out@, a, b);
            let all = block_cvs(key@, input@, counter as nat, flags, count as nat, 1);
            assert forall|i: int| 0 <= i < count implies #[trigger] all[i] == (a + b)[i] by {
                if i < mid {
                    assert(left_in@.subrange(1024 * 1 * i, 1024 * 1 * (i + 1)) =~= input@.subrange(
                        1024 * 1 * i,
                        1024 * 1 * (i + 1),
                    ));
                } else {
                    let k = i - mid;
                    assert(right_in@.subrange(1024 * 1 * k, 1024 * 1 * (k + 1)) =~= input@.subrange(
                        1024 * 1 * i,
                        1024 * 1 * (i + 1),
                    ));
                    assert(right_counter + 1 * k == counter + 1 * i);
                }
            }
            assert(all =~= a + b);
        }
        out
    } else {
        let mut out = vec![0u8; count * OUT_LEN];
        platform.hash_many(
            input,
            CHUNK_LEN,
            key,
            counter,
            crate::IncrementCounter::Yes,
            flags,
            crate::CHUNK_START,
            crate::CHUNK_END,
            out.as_mut_slice(),
        );
        proof {
            let all = block_cvs(key@, input@, counter as nat, flags, count as nat, 1);
            assert forall|i: int| 0 <= i < count implies #[trigger] out@.subrange(32 * i, 32 * i + 32)
                == crate::platform::bytes_of(all[i]) by {
                let chunk = input@.subrange(i * 1024, (i + 1) * 1024);
                assert(1024 * 1 * i == i * 1024 && 1024 * 1 * (i + 1) == (i + 1) * 1024) by (nonlinear_arith);
                assert(chunk =~= input@.subrange(1024 * 1 * i, 1024 * 1 * (i + 1)));
                crate::lemma_hash1_chunk(key@, chunk, (counter + i) as u64, flags);
                assert(out@.subrange(i * 32, i * 32 + 32) == crate::platform::bytes_of(
                    crate::portable::hash_many_cv(input@, 1024, key@, counter, true, flags, crate::CHUNK_START, crate::CHUNK_END, i),
                ));
            }
        }
        out
    }
}

} // verus!

verus! {

/// The parent over block `i` of `input`, as `hash1` of the block computes it.
proof fn lemma_parent_block(key: Seq<u32>, input: Seq<u8>, flags: u8, count: nat, i: int)
    requires
        input.len() == 64 * count,
        0 <= i < count,
    ensures
        crate::portable::hash_many_cv(input, 64, key, 0, false, flags | crate::PARENT, 0, 0, i)
            == parent_layer(key, input, flags, count)[i],
{
    let l = crate::platform::words_of(input.subrange(64 * i, 64 * i + 32));
    let r = crate::platform::words_of(input.subrange(64 * i + 32, 64 * i + 64));
    lemma_block_words(input, i);
    crate::lemma_hash1_parent(key, l, r, flags);
    assert(parent_layer(key, input, flags, count)[i] == crate::tree::parent_cv(l, r, key, flags));
}

/// Block `i` of `input` is the bytes of its two halves' words.
proof fn lemma_block_words(input: Seq<u8>, i: int)
    requires
        0 <= 64 * i,
        64 * i + 64 <= input.len(),
    ensures
        input.subrange(i * 64, (i + 1) * 64) == crate::platform::bytes_of(
            crate::platform::words_of(input.subrange(64 * i, 64 * i + 32)),
        ) + crate::platform::bytes_of(crate::platform::words_of(input.subrange(64 * i + 32, 64 * i + 64))),
{
    let lb = input.subrange(64 * i, 64 * i + 32);
    let rb = input.subrange(64 * i + 32, 64 * i + 64);
    assert(input.subrange(i * 64, (i + 1) * 64) == lb + rb) by {
        assert(input.subrange(i * 64, (i + 1) * 64) =~= lb + rb);
    }
    assert(crate::platform::bytes_of(crate::platform::words_of(lb)) == lb) by {
        crate::platform::lemma_bytes_words_bytes(lb);
    }
    assert(crate::platform::bytes_of(crate::platform::words_of(rb)) == rb) by {
        crate::platform::lemma_bytes_words_bytes(rb);
    }
}

/// What the parent shader computes over `count` blocks of two chaining
/// values each: the chaining value of each parent. Splits the work in
/// halves, potentially in parallel, while there are more blocks than one
/// pass of `platform` takes.
fn parent_shader_cvs<J: Join>(
    platform: Platform,
    count: usize,
    input: &[u8],
    key: &[u32; 8],
    flags: u8,
) -> (out: Vec<u8>)
    requires
        input@.len() == 64 * count,
    ensures
        out@.len() == 32 * count,
        holds_cvs(out@, parent_layer(key@, input@, flags, count as nat)),
    decreases count,
{
    if count > platform.simd_degree() {
        let mid = count / 2;
        assert(mid * 64 <= input@.len()) by (nonlinear_arith)
            requires
                mid == count / 2,
                input@.len() == 64 * count,
        ;
        assert(input@.len() == input.len());
        let (left_in, right_in) = input.split_at(mid * BLOCK_LEN);
        let rest = count - mid;
        let left_job = move || -> (r: Vec<u8>)
            requires
                left_in@.len() == 64 * mid,
            ensures
                r@.len() == 32 * mid,
                holds_cvs(r@, parent_layer(key@, left_in@, flags, mid as nat)),
        { parent_shader_cvs::<J>(platform, mid, left_in, key, flags) };
        let right_job = move || -> (r: Vec<u8>)
            requires
                right_in@.len() == 64 * rest,
            ensures
                r@.len() == 32 * rest,
                holds_cvs(r@, parent_layer(key@, right_in@, flags, rest as nat)),
        { parent_shader_cvs::<J>(platform, rest, right_in, key, flags) };
        let (mut out, right_out) = J::join(left_job, right_job, left_in.len(), right_in.len());
        let ghost a = parent_layer(key@, left_in@, flags, mid as nat);
        let ghost b = parent_layer(key@, right_in@, flags, rest as nat);
        let ghost lo = out@;
        append_bytes(&mut out, &right_out);
        proof {
            crate::lemma_holds_cvs_concat(lo, right_out@, a, b);
            let all = parent_layer(key@, input@, flags, count as nat);
            assert forall|i: int| 0 <= i < count implies #[trigger] all[i] == (a + b)[i] by {
                if i < mid {
                    assert(left_in@.subrange(64 * i, 64 * i + 32) =~= input@.subrange(64 * i, 64 * i + 32));
                    assert(left_in@.subrange(64 * i + 32, 64 * i + 64) =~= input@.subrange(64 * i + 32, 64 * i + 64));
                } else {
                    let k = i - mid;
                    assert(right_in@.subrange(64 * k, 64 * k + 32) =~= input@.subrange(64 * i, 64 * i + 32));
                    assert(right_in@.subrange(64 * k + 32, 64 * k + 64) =~= input@.subrange(64 * i + 32, 64 * i + 64));
                }
            }
            assert(all =~= a + b);
        }
        out
    } else {
        let mut out = vec![0u8; count * OUT_LEN];
        platform.hash_many(input, BLOCK_LEN, key, 0, crate::IncrementCounter::No, flags | crate::PARENT, 0, 0, out.as_mut_slice());
        proof {
            let all = parent_layer(key@, input@, flags, count as nat);
            assert forall|i: int| 0 <= i < count implies #[trigger] out@.subrange(32 * i, 32 * i + 32)
                == crate::platform::bytes_of(all[i]) by {
                lemma_parent_block(key@, input@, flags, count as nat, i);
                assert(out@.subrange(i * 32, i * 32 + 32) == crate::platform::bytes_of(
                    crate::portable::hash_many_cv(input@, 64, key@, 0, false, flags | crate::PARENT, 0, 0, i),
                ));
            }
        }
        out
    }
}

} // verus!

verus! {

/// A hash state that can also take in what a GPU shader computed.
///
/// It wraps a `Hasher`, exports the key and flags that a shader needs
/// (`gpu_control`), and imports the chaining values the shader computed
/// (`update_from_gpu`). Wrong shader output, or output for another chunk
/// counter, makes a wrong hash: the contracts speak of the hash of an input
/// whose chaining values the shader output holds. Shader output is in the
/// host's byte order; the hash state notes that order when it is made.
pub struct GpuHasher {
    inner: crate::Hasher,
    big_endian: bool,
}

impl GpuHasher {
    /// The wrapped hash state.
    pub closed spec fn hasher(self) -> crate::Hasher {
        self.inner
    }

    /// Whether this hash state found the host to store 32-bit words most
    /// significant byte first, when it was made.
    pub closed spec fn native_big_endian(self) -> bool {
        self.big_endian
    }

    /// A wrapper of `Hasher::new`.
    pub fn new() -> (h: Self)
        ensures
            h.hasher().wf(),
            h.hasher().key_words() == crate::IV@,
            h.hasher().mode_flags() == 0,
            h.hasher().hashed() == Seq::<u8>::empty(),
            h.hasher().offset_chunks() == 0,
            h.hasher().buffered() == 0,
    {
        let inner = crate::Hasher::new();
        proof {
            inner.lemma_buffered();
        }
        Self { inner, big_endian: host_is_big_endian() }
    }

    /// A wrapper of `Hasher::new_keyed`.
    pub fn new_keyed(key: &[u8; 32]) -> (h: Self)
        ensures
            h.hasher().wf(),
            h.hasher().key_words() == crate::platform::words_of(key@),
            h.hasher().mode_flags() == crate::KEYED_HASH,
            h.hasher().hashed() == Seq::<u8>::empty(),
            h.hasher().offset_chunks() == 0,
            h.hasher().buffered() == 0,
    {
        let inner = crate::Hasher::new_keyed(key);
        proof {
            inner.lemma_buffered();
        }
        Self { inner, big_endian: host_is_big_endian() }
    }

    /// A wrapper of `Hasher::new_derive_key`.
    pub fn new_derive_key(context: &str) -> (h: Self)
        ensures
            h.hasher().wf(),
            h.hasher().key_words() == crate::platform::words_of(
                crate::model::root_hash_bytes(
                    crate::model::subtree_output(crate::IV@, context.spec_bytes(), 0, crate::DERIVE_KEY_CONTEXT),
                ),
            ),
            h.hasher().mode_flags() == crate::DERIVE_KEY_MATERIAL,
            h.hasher().hashed() == Seq::<u8>::empty(),
            h.hasher().offset_chunks() == 0,
            h.hasher().buffered() == 0,
    {
        let inner = crate::Hasher::new_derive_key(context);
        proof {
            inner.lemma_buffered();
        }
        Self { inner, big_endian: host_is_big_endian() }
    }

    /// The control uniform for a shader that hashes whole chunks from
    /// `chunk_counter` on, or parents, with this hash state's key and flags.
    pub fn gpu_control(&self, chunk_counter: u64) -> (c: GpuControl)
        ensures
            c.key_spec() == self.hasher().key_words(),
            c.counter_spec() == chunk_counter,
            c.flags_spec() == self.hasher().mode_flags(),
    {
        GpuControl::new(self.inner.key_array(), chunk_counter, self.inner.flags_u8())
    }
}

impl core::ops::Deref for GpuHasher {
    type Target = crate::Hasher;

    fn deref(&self) -> (h: &crate::Hasher)
        ensures
            *h == self.hasher(),
    {
        &self.inner
    }
}

} // verus!

verus! {

/// Copy `src` over `dst`, which has its length.
fn copy_over(src: &Vec<u8>, dst: &mut [u8])
    requires
        old(dst)@.len() == src@.len(),
    ensures
        final(dst)@ == src@,
{
    let mut i: usize = 0;
    while i < src.len()
        invariant
            i <= src@.len(),
            dst@.len() == src@.len(),
            forall|k: int| 0 <= k < i ==> dst@[k] == src@[k],
        decreases src@.len() - i,
    {
        dst[i] = src[i];
        i += 1;
    }
    proof {
        assert(dst@ =~= src@);
    }
}

impl GpuHasher {
    /// Take in `chunk_count` whole chunks, given as the output of one or
    /// more levels of the shader: the chaining values of
    /// `parents.len() / 32` equal consecutive blocks of those chunks.
    ///
    /// The chunks must start at a multiple of `chunk_count`, a power of two
    /// no larger than `2^32`; the number of values must be more than two
    /// and divide `chunk_count`; nothing may be buffered from an earlier
    /// update (the simplest way is to use this for all of the input but a
    /// tail that `update` takes). The shader must have run with the
    /// control of `gpu_control` for the chunk counter that comes next.
    pub fn update_from_gpu<J: Join>(&mut self, chunk_count: u64, parents: &mut [u8]) -> (r: &mut Self)
        requires
            old(self).hasher().wf(),
            old(self).hasher().buffered() == 0,
            crate::stack::is_pow2(chunk_count as nat),
            chunk_count <= 0x1_0000_0000,
            (old(self).hasher().offset_chunks() + old(self).hasher().hashed().len() / 1024) % (chunk_count as nat)
                == 0,
            old(parents)@.len() % 32 == 0,
            old(parents)@.len() / 32 > 2,
            (chunk_count as nat) % (old(parents)@.len() / 32) == 0,
            old(self).hasher().fits((old(self).hasher().hashed().len() + 1024 * chunk_count) as nat),
            exists|y: Seq<u8>|
                shader_parents(
                    old(self).hasher(),
                    y,
                    chunk_count as nat,
                    native_to_le(old(parents)@, old(self).native_big_endian()),
                ),
        ensures
            final(parents)@ == native_to_le(old(parents)@, old(self).native_big_endian()),
            r.native_big_endian() == old(self).native_big_endian(),
            r.hasher().wf(),
            r.hasher().buffered() == 0,
            r.hasher().key_words() == old(self).hasher().key_words(),
            r.hasher().mode_flags() == old(self).hasher().mode_flags(),
            r.hasher().offset_chunks() == old(self).hasher().offset_chunks(),
            exists|y: Seq<u8>|
                shader_parents(old(self).hasher(), y, chunk_count as nat, final(parents)@)
                    && r.hasher().hashed() == old(self).hasher().hashed() + y,
            *final(self) == *final(r),
    {
        // The shader's output words are in the host's byte order; the rest
        // of the library reads little-endian bytes.
        to_little_endian(parents, self.big_endian);
        let ghost y = choose|y: Seq<u8>| shader_parents(self.inner, y, chunk_count as nat, parents@);
        self.inner.update_from_parents::<J>(chunk_count, parents, Ghost(y));
        self
    }

    /// What the chunk shader computes, on the CPU: the chaining values of
    /// the `count` chunks of `input`, numbered from the control's chunk
    /// counter on, written to `output`. For testing a real shader.
    pub fn simulate_chunk_shader<J: Join>(
        &self,
        count: usize,
        input: &[u8],
        output: &mut [u8],
        control: &GpuControl,
    )
        requires
            input@.len() == 1024 * count,
            old(output)@.len() == 32 * count,
            control.counter_spec() + count <= u64::MAX,
        ensures
            final(output)@.len() == old(output)@.len(),
            holds_cvs(
                final(output)@,
                block_cvs(
                    control.key_spec(),
                    input@,
                    control.counter_spec(),
                    control.flags_spec() as u8,
                    count as nat,
                    1,
                ),
            ),
    {
        let out = chunk_shader_cvs::<J>(
            self.inner.platform_value(),
            count,
            input,
            control.key(),
            control.chunk_counter(),
            control.flags(),
        );
        copy_over(&out, output);
    }

    /// What the parent shader computes, on the CPU: the chaining values of
    /// the parents over the `count` blocks of two chaining values in
    /// `input`, written to `output`. For testing a real shader.
    pub fn simulate_parent_shader<J: Join>(
        &self,
        count: usize,
        input: &[u8],
        output: &mut [u8],
        control: &GpuControl,
    )
        requires
            input@.len() == 64 * count,
            old(output)@.len() == 32 * count,
        ensures
            final(output)@.len() == old(output)@.len(),
            holds_cvs(final(output)@, parent_layer(control.key_spec(), input@, control.flags_spec() as u8, count as nat)),
    {
        let out = parent_shader_cvs::<J>(self.inner.platform_value(), count, input, control.key(), control.flags());
        copy_over(&out, output);
    }

    /// Put shader output, 32-bit words in the host's byte order, into the
    /// little-endian order the rest of the library reads: on a big-endian
    /// host the four bytes of every word are reversed, on a little-endian
    /// host nothing changes. The buffer holds a power-of-two number of
    /// bytes, a multiple of 32.
    pub fn swap_endian<J: Join>(buffer: &mut [u8])
        requires
            crate::stack::is_pow2(old(buffer)@.len()),
            old(buffer)@.len() % 32 == 0,
        ensures
            final(buffer)@ == old(buffer)@ || final(buffer)@ == swap_words(old(buffer)@),
    {
        let big = host_is_big_endian();
        to_little_endian(buffer, big);
    }
}

/// Whether the host stores 32-bit words most significant byte first.
fn host_is_big_endian() -> bool {
    let one = crate::outside::u32_to_ne_bytes(1);
    one[0] == 0
}

/// `b` with the four bytes of every whole 32-bit word reversed.
pub open spec fn swap_words(b: Seq<u8>) -> Seq<u8> {
    Seq::new(
        b.len(),
        |i: int|
            if i - i % 4 + 4 <= b.len() {
                b[i - i % 4 + 3 - i % 4]
            } else {
                b[i]
            },
    )
}

/// Bytes of 32-bit words in a host's byte order (big endian if `big`) as
/// little-endian bytes.
pub open spec fn native_to_le(b: Seq<u8>, big: bool) -> Seq<u8> {
    if big {
        swap_words(b)
    } else {
        b
    }
}

/// Reverse the bytes of every 32-bit word of `buffer` if `big`.
fn to_little_endian(buffer: &mut [u8], big: bool)
    requires
        old(buffer)@.len() % 4 == 0,
    ensures
        final(buffer)@ == native_to_le(old(buffer)@, big),
{
    if big {
        let ghost b0 = buffer@;
        let mut i: usize = 0;
        while i < buffer.len()
            invariant
                i % 4 == 0,
                i <= buffer@.len(),
                buffer@.len() == b0.len(),
                b0.len() % 4 == 0,
                forall|k: int| 0 <= k < i ==> buffer@[k] == #[trigger] swap_words(b0)[k],
                forall|k: int| i <= k < b0.len() ==> buffer@[k] == b0[k],
            decreases b0.len() - i,
        {
            let w0 = buffer[i];
            let w1 = buffer[i + 1];
            let w2 = buffer[i + 2];
            let w3 = buffer[i + 3];
            buffer[i] = w3;
            buffer[i + 1] = w2;
            buffer[i + 2] = w1;
            buffer[i + 3] = w0;
            proof {
                let j = i as int;
                assert(j + 4 <= b0.len()) by {
                    vstd::arithmetic::div_mod::lemma_fundamental_div_mod(j, 4);
                    vstd::arithmetic::div_mod::lemma_fundamental_div_mod(b0.len() as int, 4);
                }
                assert((j + 1) % 4 == 1 && (j + 2) % 4 == 2 && (j + 3) % 4 == 3);
                assert(swap_words(b0)[j] == b0[j + 3]);
                assert(swap_words(b0)[j + 1] == b0[j + 2]);
                assert(swap_words(b0)[j + 2] == b0[j + 1]);
                assert(swap_words(b0)[j + 3] == b0[j]);
            }
            i += 4;
        }
        proof {
            assert(buffer@ =~= swap_words(b0));
        }
    }
}

impl Clone for GpuHasher {
    /// A copy of the hash state, which continues independently.
    fn clone(&self) -> (r: Self)
        ensures
            self.hasher().wf() ==> r.hasher().wf(),
            r.hasher().key_words() == self.hasher().key_words(),
            r.hasher().mode_flags() == self.hasher().mode_flags(),
            r.hasher().hashed() == self.hasher().hashed(),
            r.hasher().offset_chunks() == self.hasher().offset_chunks(),
    {
        GpuHasher { inner: self.inner.clone(), big_endian: self.big_endian }
    }
}

impl Default for GpuHasher {
    fn default() -> (h: Self)
        ensures
            h.hasher().wf(),
            h.hasher().key_words() == crate::IV@,
            h.hasher().mode_flags() == 0,
            h.hasher().hashed() == Seq::<u8>::empty(),
            h.hasher().offset_chunks() == 0,
            h.hasher().buffered() == 0,
    {
        Self::new()
    }
}

impl From<GpuHasher> for crate::Hasher {
    fn from(hasher: GpuHasher) -> (h: crate::Hasher) {
        hasher.inner
    }
}

impl vstd::std_specs::convert::FromSpecImpl<GpuHasher> for crate::Hasher {
    open spec fn obeys_from_spec() -> bool {
        true
    }

    open spec fn from_spec(hasher: GpuHasher) -> Self {
        hasher.hasher()
    }
}

} // verus!

verus! {

/// What the host does with one GPU task when its turn in the queue comes.
#[derive(Clone, Copy, Debug, PartialEq, Eq)]
pub struct GpuTaskPlan {
    /// Copy the next `buffer_size` bytes of the input into the task's
    /// input buffer.
    pub stream_input: bool,
    /// Keep the rest of the input, shorter than one buffer, as the tail
    /// that the CPU hashes at the end.
    pub take_tail: bool,
    /// Submit the task, with the control for the next chunk counter.
    pub submit: bool,
    /// Whether the submitted task has fresh input (else it only finishes
    /// the levels that are still pending).
    pub submit_has_input: bool,
    /// Import the task's output into the hash state with `update_from_gpu`.
    pub import_output: bool,
    /// Put the task back at the end of the queue.
    pub requeue: bool,
}

/// The decisions of hashing an input through a queue of GPU tasks, for
/// the task whose turn it is: `tail_taken` says whether the tail was set
/// aside already, `remaining` is the input not yet given to a task, and
/// `wait` is what waiting for the task (if it was pending) found.
pub fn plan_gpu_task(tail_taken: bool, remaining: usize, buffer_size: usize, wait: GpuTaskWaitResult) -> (plan:
    GpuTaskPlan)
    ensures
        plan.take_tail == (!tail_taken && remaining < buffer_size),
        plan.stream_input == (!tail_taken && remaining >= buffer_size),
        plan.submit == (!(tail_taken || plan.take_tail) || wait.has_more),
        plan.submit_has_input == !(tail_taken || plan.take_tail),
        plan.import_output == wait.has_output,
        plan.requeue == plan.submit,
{
    let take_tail = !tail_taken && remaining < buffer_size;
    let stream_input = !tail_taken && remaining >= buffer_size;
    let has_input = !(tail_taken || take_tail);
    let submit = has_input || wait.has_more;
    GpuTaskPlan {
        stream_input,
        take_tail,
        submit,
        submit_has_input: has_input,
        import_output: wait.has_output,
        requeue: submit,
    }
}

} // verus!

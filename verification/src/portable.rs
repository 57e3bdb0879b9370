//! The BLAKE3 compression function, written with plain integer operations.

use crate::platform::{bytes_of, words_of};
use crate::{IncrementCounter, BLOCK_LEN, IV, MSG_SCHEDULE, OUT_LEN};
use vstd::prelude::*;

verus! {

/// Rotation of a word `n` bits to the right.
pub open spec fn rotr(x: u32, n: u32) -> u32 {
    (x >> n) | (x << ((32 - n) as u32))
}

fn rotate_right(x: u32, n: u32) -> (r: u32)
    requires
        0 < n < 32,
    ensures
        r == rotr(x, n),
{
    (x >> n) | (x << (32 - n))
}

/// The mixing function G applied to words `a`, `b`, `c`, `d` of the state.
#[verifier::opaque]
pub open spec fn g_spec(s: Seq<u32>, a: int, b: int, c: int, d: int, x: u32, y: u32) -> Seq<u32> {
    let s = s.update(a, s[a].wrapping_add(s[b]).wrapping_add(x));
    let s = s.update(d, rotr(s[d] ^ s[a], 16));
    let s = s.update(c, s[c].wrapping_add(s[d]));
    let s = s.update(b, rotr(s[b] ^ s[c], 12));
    let s = s.update(a, s[a].wrapping_add(s[b]).wrapping_add(y));
    let s = s.update(d, rotr(s[d] ^ s[a], 8));
    let s = s.update(c, s[c].wrapping_add(s[d]));
    s.update(b, rotr(s[b] ^ s[c], 7))
}

/// Message word `i` of round `r`.
pub open spec fn msg_word(m: Seq<u32>, r: int, i: int) -> u32 {
    m[MSG_SCHEDULE[r][i] as int]
}

/// One round: G on the four columns, then on the four diagonals.
#[verifier::opaque]
pub open spec fn round_spec(s: Seq<u32>, m: Seq<u32>, r: int) -> Seq<u32> {
    let s = g_spec(s, 0, 4, 8, 12, msg_word(m, r, 0), msg_word(m, r, 1));
    let s = g_spec(s, 1, 5, 9, 13, msg_word(m, r, 2), msg_word(m, r, 3));
    let s = g_spec(s, 2, 6, 10, 14, msg_word(m, r, 4), msg_word(m, r, 5));
    let s = g_spec(s, 3, 7, 11, 15, msg_word(m, r, 6), msg_word(m, r, 7));
    let s = g_spec(s, 0, 5, 10, 15, msg_word(m, r, 8), msg_word(m, r, 9));
    let s = g_spec(s, 1, 6, 11, 12, msg_word(m, r, 10), msg_word(m, r, 11));
    let s = g_spec(s, 2, 7, 8, 13, msg_word(m, r, 12), msg_word(m, r, 13));
    g_spec(s, 3, 4, 9, 14, msg_word(m, r, 14), msg_word(m, r, 15))
}

/// The first `n` rounds applied to the state `s`.
pub open spec fn rounds_spec(s: Seq<u32>, m: Seq<u32>, n: nat) -> Seq<u32>
    decreases n,
{
    if n == 0 {
        s
    } else {
        round_spec(rounds_spec(s, m, (n - 1) as nat), m, n - 1)
    }
}

/// The state before the rounds.
pub open spec fn initial_state(cv: Seq<u32>, block_len: u32, counter: u64, flags: u32) -> Seq<
    u32,
> {
    seq![
        cv[0],
        cv[1],
        cv[2],
        cv[3],
        cv[4],
        cv[5],
        cv[6],
        cv[7],
        IV[0],
        IV[1],
        IV[2],
        IV[3],
        counter as u32,
        (counter >> 32u64) as u32,
        block_len,
        flags,
    ]
}

/// The state after all seven rounds, for a block given as bytes.
pub open spec fn compress_state(
    cv: Seq<u32>,
    block: Seq<u8>,
    block_len: u32,
    counter: u64,
    flags: u32,
) -> Seq<u32> {
    rounds_spec(initial_state(cv, block_len, counter, flags), words_of(block), 7)
}

/// The full 16-word output of the compression function.
pub open spec fn compress_words(
    cv: Seq<u32>,
    block: Seq<u8>,
    block_len: u32,
    counter: u64,
    flags: u32,
) -> Seq<u32> {
    let s = compress_state(cv, block, block_len, counter, flags);
    Seq::new(16, |i: int| if i < 8 { s[i] ^ s[i + 8] } else { s[i] ^ cv[i - 8] })
}

/// The new chaining value: the first 8 output words.
pub open spec fn compress_cv(
    cv: Seq<u32>,
    block: Seq<u8>,
    block_len: u32,
    counter: u64,
    flags: u32,
) -> Seq<u32> {
    compress_words(cv, block, block_len, counter, flags).subrange(0, 8)
}

/// The 64 extended-output bytes of one compression.
pub open spec fn compress_xof_bytes(
    cv: Seq<u32>,
    block: Seq<u8>,
    block_len: u32,
    counter: u64,
    flags: u32,
) -> Seq<u8> {
    bytes_of(compress_words(cv, block, block_len, counter, flags))
}

pub(crate) fn g(state: &mut [u32; 16], a: usize, b: usize, c: usize, d: usize, x: u32, y: u32)
    requires
        a < 16,
        b < 16,
        c < 16,
        d < 16,
    ensures
        final(state)@ == g_spec(old(state)@, a as int, b as int, c as int, d as int, x, y),
{
    proof {
        reveal(g_spec);
    }
    state[a] = state[a].wrapping_add(state[b]).wrapping_add(x);
    state[d] = rotate_right(state[d] ^ state[a], 16);
    state[c] = state[c].wrapping_add(state[d]);
    state[b] = rotate_right(state[b] ^ state[c], 12);
    state[a] = state[a].wrapping_add(state[b]).wrapping_add(y);
    state[d] = rotate_right(state[d] ^ state[a], 8);
    state[c] = state[c].wrapping_add(state[d]);
    state[b] = rotate_right(state[b] ^ state[c], 7);
}

fn round(state: &mut [u32; 16], msg: &[u32; 16], round: usize)
    requires
        round < 7,
    ensures
        final(state)@ == round_spec(old(state)@, msg@, round as int),
{
    proof {
        reveal(round_spec);
    }
    // Select the message schedule based on the round.
    let schedule = MSG_SCHEDULE[round];
    assert(forall|i: int| 0 <= i < 16 ==> schedule@[i] < 16);

    // Mix the columns.
    g(state, 0, 4, 8, 12, msg[schedule[0]], msg[schedule[1]]);
    g(state, 1, 5, 9, 13, msg[schedule[2]], msg[schedule[3]]);
    g(state, 2, 6, 10, 14, msg[schedule[4]], msg[schedule[5]]);
    g(state, 3, 7, 11, 15, msg[schedule[6]], msg[schedule[7]]);

    // Mix the diagonals.
    g(state, 0, 5, 10, 15, msg[schedule[8]], msg[schedule[9]]);
    g(state, 1, 6, 11, 12, msg[schedule[10]], msg[schedule[11]]);
    g(state, 2, 7, 8, 13, msg[schedule[12]], msg[schedule[13]]);
    g(state, 3, 4, 9, 14, msg[schedule[14]], msg[schedule[15]]);
}


fn compress_pre(
    cv: &[u32; 8],
    block: &[u8; BLOCK_LEN],
    block_len: u32,
    counter: u64,
    flags: u32,
) -> (state: [u32; 16])
    ensures
        state@ == compress_state(cv@, block@, block_len, counter, flags),
{
    let block_words = crate::platform::words_from_le_bytes_64(block);

    let mut state = [
        cv[0],
        cv[1],
        cv[2],
        cv[3],
        cv[4],
        cv[5],
        cv[6],
        cv[7],
        IV[0],
        IV[1],
        IV[2],
        IV[3],
        crate::counter_low(counter),
        crate::counter_high(counter),
        block_len,
        flags,
    ];
    let ghost s0 = initial_state(cv@, block_len, counter, flags);
    assert(state@ =~= s0);
    let ghost m = words_of(block@);

    round(&mut state, &block_words, 0);
    round(&mut state, &block_words, 1);
    round(&mut state, &block_words, 2);
    round(&mut state, &block_words, 3);
    round(&mut state, &block_words, 4);
    round(&mut state, &block_words, 5);
    round(&mut state, &block_words, 6);
    proof {
        reveal_with_fuel(rounds_spec, 8);
    }
    state
}

/// The new chaining value of one compression, with the block length and
/// flags as whole words.
pub(crate) fn compress_cv_words(
    cv: &[u32; 8],
    block: &[u8; BLOCK_LEN],
    block_len: u32,
    counter: u64,
    flags: u32,
) -> (r: [u32; 8])
    ensures
        r@ == compress_cv(cv@, block@, block_len, counter, flags),
{
    let state = compress_pre(cv, block, block_len, counter, flags);
    let r = [
        state[0] ^ state[8],
        state[1] ^ state[9],
        state[2] ^ state[10],
        state[3] ^ state[11],
        state[4] ^ state[12],
        state[5] ^ state[13],
        state[6] ^ state[14],
        state[7] ^ state[15],
    ];
    assert(r@ =~= compress_cv(cv@, block@, block_len, counter, flags));
    r
}

/// All 64 output bytes of one compression (extended output), with the
/// block length and flags as whole words.
pub(crate) fn compress_xof_words(
    cv: &[u32; 8],
    block: &[u8; BLOCK_LEN],
    block_len: u32,
    counter: u64,
    flags: u32,
) -> (out: [u8; 64])
    ensures
        out@ == compress_xof_bytes(cv@, block@, block_len, counter, flags),
{
    let mut state = compress_pre(cv, block, block_len, counter, flags);
    state[0] ^= state[8];
    state[1] ^= state[9];
    state[2] ^= state[10];
    state[3] ^= state[11];
    state[4] ^= state[12];
    state[5] ^= state[13];
    state[6] ^= state[14];
    state[7] ^= state[15];
    state[8] ^= cv[0];
    state[9] ^= cv[1];
    state[10] ^= cv[2];
    state[11] ^= cv[3];
    state[12] ^= cv[4];
    state[13] ^= cv[5];
    state[14] ^= cv[6];
    state[15] ^= cv[7];
    assert(state@ =~= compress_words(cv@, block@, block_len, counter, flags));
    crate::platform::le_bytes_from_words_64(&state)
}

/// Compress one block, replacing the chaining value with the new one.
pub fn compress_in_place(
    cv: &mut [u32; 8],
    block: &[u8; BLOCK_LEN],
    block_len: u8,
    counter: u64,
    flags: u8,
)
    ensures
        final(cv)@ == compress_cv(old(cv)@, block@, block_len as u32, counter, flags as u32),
{
    *cv = compress_cv_words(cv, block, block_len as u32, counter, flags as u32);
}

/// Compress one block and return all 64 output bytes (extended output).
pub fn compress_xof(
    cv: &[u32; 8],
    block: &[u8; BLOCK_LEN],
    block_len: u8,
    counter: u64,
    flags: u8,
) -> (out: [u8; 64])
    ensures
        out@ == compress_xof_bytes(cv@, block@, block_len as u32, counter, flags as u32),
{
    compress_xof_words(cv, block, block_len as u32, counter, flags as u32)
}


/// The flags of block `j` out of `n` blocks hashed by `hash1`.
pub open spec fn hash1_block_flags(flags: u8, flags_start: u8, flags_end: u8, j: nat, n: nat) -> u8 {
    let f = if j == 0 {
        flags | flags_start
    } else {
        flags
    };
    if j + 1 == n {
        f | flags_end
    } else {
        f
    }
}

/// The chaining value after the first `k` blocks of `input`, when all of
/// `input` is hashed by `hash1`.
pub open spec fn hash1_cv_after(
    key: Seq<u32>,
    input: Seq<u8>,
    counter: u64,
    flags: u8,
    flags_start: u8,
    flags_end: u8,
    k: nat,
) -> Seq<u32>
    decreases k,
{
    if k == 0 {
        key
    } else {
        compress_cv(
            hash1_cv_after(key, input, counter, flags, flags_start, flags_end, (k - 1) as nat),
            input.subrange(64 * (k - 1), (64 * k) as int),
            BLOCK_LEN as u32,
            counter,
            hash1_block_flags(flags, flags_start, flags_end, (k - 1) as nat, input.len() / 64) as u32,
        )
    }
}

/// The chaining value of a whole input of full blocks, as `hash1` computes it.
pub open spec fn hash1_spec(
    key: Seq<u32>,
    input: Seq<u8>,
    counter: u64,
    flags: u8,
    flags_start: u8,
    flags_end: u8,
) -> Seq<u32> {
    hash1_cv_after(key, input, counter, flags, flags_start, flags_end, input.len() / 64)
}

/// Hash one input of whole blocks with a single chaining value, setting
/// `flags_start` on the first block and `flags_end` on the last.
pub fn hash1(
    input: &[u8],
    key: &[u32; 8],
    counter: u64,
    flags: u8,
    flags_start: u8,
    flags_end: u8,
) -> (out: [u8; 32])
    requires
        input@.len() % 64 == 0,
        input@.len() > 0,
    ensures
        out@ == bytes_of(hash1_spec(key@, input@, counter, flags, flags_start, flags_end)),
{
    let n: usize = input.len();
    let ghost nb = (n / 64) as nat;
    let mut cv = *key;
    let mut block_flags = flags | flags_start;
    let mut pos: usize = 0;
    while n - pos >= BLOCK_LEN
        invariant
            n == input@.len(),
            n % 64 == 0,
            pos % 64 == 0,
            pos <= n,
            nb == n / 64,
            cv@ == hash1_cv_after(key@, input@, counter, flags, flags_start, flags_end, (pos / 64) as nat),
            block_flags == (if pos == 0 { flags | flags_start } else { flags }),
        decreases n - pos,
    {
        let ghost j = (pos / 64) as nat;
        if n - pos == BLOCK_LEN {
            block_flags |= flags_end;
        }
        assert(block_flags == hash1_block_flags(flags, flags_start, flags_end, j, nb));
        let block = crate::copy_block(input, pos);
        compress_in_place(&mut cv, &block, BLOCK_LEN as u8, counter, block_flags);
        block_flags = flags;
        pos += BLOCK_LEN;
        assert((pos / 64) as nat == j + 1);
    }
    crate::platform::le_bytes_from_words_32(&cv)
}

/// The `i`-th output of `hash_many`.
pub open spec fn hash_many_cv(
    inputs: Seq<u8>,
    input_len: nat,
    key: Seq<u32>,
    counter: u64,
    increment: bool,
    flags: u8,
    flags_start: u8,
    flags_end: u8,
    i: int,
) -> Seq<u32> {
    hash1_spec(
        key,
        inputs.subrange(i * input_len, (i + 1) * input_len),
        (if increment { counter + i } else { counter as int }) as u64,
        flags,
        flags_start,
        flags_end,
    )
}

/// Hash consecutive inputs of `input_len` bytes each, writing one 32-byte
/// chaining value per input to `out`. The counter goes up by one per input
/// when `increment_counter` says so.
pub fn hash_many(
    inputs: &[u8],
    input_len: usize,
    key: &[u32; 8],
    counter: u64,
    increment_counter: IncrementCounter,
    flags: u8,
    flags_start: u8,
    flags_end: u8,
    out: &mut [u8],
)
    requires
        input_len > 0,
        input_len % 64 == 0,
        inputs@.len() as int % input_len as int == 0,
        old(out)@.len() >= (inputs@.len() as int / input_len as int) * OUT_LEN,
        increment_counter == IncrementCounter::Yes ==> counter + inputs@.len() as int / input_len as int
            <= u64::MAX,
    ensures
        final(out)@.len() == old(out)@.len(),
        forall|i: int|
            0 <= i < inputs@.len() as int / input_len as int ==> #[trigger] final(out)@.subrange(
                i * 32,
                i * 32 + 32,
            ) == bytes_of(
                hash_many_cv(
                    inputs@,
                    input_len as nat,
                    key@,
                    counter,
                    increment_counter == IncrementCounter::Yes,
                    flags,
                    flags_start,
                    flags_end,
                    i,
                ),
            ),
        forall|k: int|
            (inputs@.len() as int / input_len as int) * 32 <= k < old(out)@.len() ==> final(out)@[k] == old(
                out,
            )@[k],
{
    let total: usize = inputs.len();
    let olen: usize = out.len();
    let num: usize = total / input_len;
    let ghost inc = increment_counter == IncrementCounter::Yes;
    proof {
        vstd::arithmetic::div_mod::lemma_fundamental_div_mod(total as int, input_len as int);
        assert(total == num * input_len) by (nonlinear_arith)
            requires
                total == input_len * (total / input_len) + total % input_len,
                total % input_len == 0,
                num == total / input_len,
        ;
    }
    let mut c = counter;
    let mut i: usize = 0;
    let mut pos: usize = 0;
    while i < num
        invariant
            num == inputs@.len() as int / input_len as int,
            total == inputs@.len(),
            olen == out@.len(),
            total == num * input_len,
            pos == i * input_len,
            input_len > 0,
            input_len % 64 == 0,
            inputs@.len() as int % input_len as int == 0,
            i <= num,
            out@.len() == old(out)@.len(),
            out@.len() >= num * 32,
            inc ==> counter + num <= u64::MAX,
            c == (if inc { counter + i } else { counter as int }),
            inc == (increment_counter == IncrementCounter::Yes),
            forall|j: int|
                0 <= j < i ==> #[trigger] out@.subrange(j * 32, j * 32 + 32) == bytes_of(
                    hash_many_cv(inputs@, input_len as nat, key@, counter, inc, flags, flags_start, flags_end, j),
                ),
            forall|k: int| num * 32 <= k < out@.len() ==> out@[k] == old(out)@[k],
        decreases num - i,
    {
        assert(pos + input_len <= total) by (nonlinear_arith)
            requires
                pos == i * input_len,
                total == num * input_len,
                i < num,
                input_len > 0,
        ;
        let one = inputs.split_at(pos).1.split_at(input_len).0;
        assert(one@ =~= inputs@.subrange(i * input_len, (i + 1) * input_len)) by {
            assert((i + 1) * input_len == pos + input_len) by (nonlinear_arith)
                requires
                    pos == i * input_len,
            ;
        }
        let cv = hash1(one, key, c, flags, flags_start, flags_end);
        let ghost before = out@;
        let mut k: usize = 0;
        while k < 32
            invariant
                k <= 32,
                i < num,
                olen == out@.len(),
                out@.len() == before.len(),
                out@.len() >= num * 32,
                forall|m: int| 0 <= m < k ==> out@[i * 32 + m] == cv@[m],
                forall|m: int| 0 <= m < out@.len() && !(i * 32 <= m < i * 32 + k) ==> out@[m] == before[m],
            decreases 32 - k,
        {
            out[i * 32 + k] = cv[k];
            k += 1;
        }
        proof {
            assert(out@.subrange(i * 32, i * 32 + 32) =~= cv@);
            assert forall|j: int| 0 <= j < i + 1 implies #[trigger] out@.subrange(j * 32, j * 32 + 32) == bytes_of(
                hash_many_cv(inputs@, input_len as nat, key@, counter, inc, flags, flags_start, flags_end, j),
            ) by {
                if j < i {
                    assert(out@.subrange(j * 32, j * 32 + 32) =~= before.subrange(j * 32, j * 32 + 32));
                }
            }
        }
        if increment_counter.yes() {
            c += 1;
        }
        proof {
            assert(pos + input_len == (i + 1) * input_len) by (nonlinear_arith)
                requires
                    pos == i * input_len,
            ;
        }
        i += 1;
        pos += input_len;
    }
}

} // verus!

verus! {

/// Byte `k` of the extended output from block number `counter` on.
pub open spec fn xof_output_byte(cv: Seq<u32>, block: Seq<u8>, block_len: u32, counter: u64, flags: u32, k: nat) -> u8 {
    compress_xof_bytes(cv, block, block_len, (counter + k / 64) as u64, flags)[(k % 64) as int]
}

/// Fill `out` with extended output, block number `counter` first, with the
/// block length and flags as whole words.
pub(crate) fn xof_words(block: &[u8; BLOCK_LEN], block_len: u32, cv: &[u32; 8], counter: u64, flags: u32, out: &mut [u8])
    requires
        counter + (old(out)@.len() + 63) / 64 <= u64::MAX,
    ensures
        final(out)@.len() == old(out)@.len(),
        forall|k: int|
            0 <= k < final(out)@.len() ==> #[trigger] final(out)@[k] == xof_output_byte(
                cv@,
                block@,
                block_len,
                counter,
                flags,
                k as nat,
            ),
{
    let n: usize = out.len();
    let mut pos: usize = 0;
    let mut counter = counter;
    let ghost c0 = counter;
    while pos < n
        invariant
            n == out@.len(),
            pos <= n,
            pos < n ==> pos % 64 == 0,
            counter == c0 + (pos + 63) / 64,
            c0 + (n + 63) / 64 <= u64::MAX,
            forall|k: int| 0 <= k < pos ==> #[trigger] out@[k] == xof_output_byte(cv@, block@, block_len, c0, flags, k as nat),
        decreases n - pos,
    {
        let block_output = compress_xof_words(cv, block, block_len, counter, flags);
        let take = if BLOCK_LEN < n - pos {
            BLOCK_LEN
        } else {
            n - pos
        };
        let mut i: usize = 0;
        while i < take
            invariant
                n == out@.len(),
                i <= take,
                pos + take <= n,
                take <= 64,
                pos % 64 == 0,
                counter == c0 + pos / 64,
                block_output@ == compress_xof_bytes(cv@, block@, block_len, counter, flags),
                forall|k: int| 0 <= k < pos + i ==> #[trigger] out@[k] == xof_output_byte(cv@, block@, block_len, c0, flags, k as nat),
            decreases take - i,
        {
            proof {
                let k = (pos + i) as nat;
                assert(k / 64 == pos / 64);
                assert(k % 64 == i);
            }
            out[pos + i] = block_output[i];
            i += 1;
        }
        pos += take;
        counter += 1;
    }
}

/// Fill `out` with extended output, block number `counter` first.
pub fn xof(block: &[u8; BLOCK_LEN], block_len: u8, cv: &[u32; 8], counter: u64, flags: u8, out: &mut [u8])
    requires
        counter + (old(out)@.len() + 63) / 64 <= u64::MAX,
    ensures
        final(out)@.len() == old(out)@.len(),
        forall|k: int|
            0 <= k < final(out)@.len() ==> #[trigger] final(out)@[k] == xof_output_byte(
                cv@,
                block@,
                block_len as u32,
                counter,
                flags as u32,
                k as nat,
            ),
{
    xof_words(block, block_len as u32, cv, counter, flags as u32, out)
}

/// XOR extended output, block number `counter` first, into `out`, with the
/// block length and flags as whole words.
pub(crate) fn xof_xor_words(block: &[u8; BLOCK_LEN], block_len: u32, cv: &[u32; 8], counter: u64, flags: u32, out: &mut [u8])
    requires
        counter + (old(out)@.len() + 63) / 64 <= u64::MAX,
    ensures
        final(out)@.len() == old(out)@.len(),
        forall|k: int|
            0 <= k < final(out)@.len() ==> #[trigger] final(out)@[k] == old(out)@[k] ^ xof_output_byte(
                cv@,
                block@,
                block_len,
                counter,
                flags,
                k as nat,
            ),
{
    let n: usize = out.len();
    let mut pos: usize = 0;
    let mut counter = counter;
    let ghost c0 = counter;
    while pos < n
        invariant
            n == out@.len(),
            n == old(out)@.len(),
            pos <= n,
            pos < n ==> pos % 64 == 0,
            counter == c0 + (pos + 63) / 64,
            c0 + (n + 63) / 64 <= u64::MAX,
            forall|k: int| 0 <= k < pos ==> #[trigger] out@[k] == old(out)@[k] ^ xof_output_byte(cv@, block@, block_len, c0, flags, k as nat),
            forall|k: int| pos <= k < n ==> #[trigger] out@[k] == old(out)@[k],
        decreases n - pos,
    {
        let block_output = compress_xof_words(cv, block, block_len, counter, flags);
        let take = if BLOCK_LEN < n - pos {
            BLOCK_LEN
        } else {
            n - pos
        };
        let mut i: usize = 0;
        while i < take
            invariant
                n == out@.len(),
                n == old(out)@.len(),
                i <= take,
                pos + take <= n,
                take <= 64,
                pos % 64 == 0,
                counter == c0 + pos / 64,
                block_output@ == compress_xof_bytes(cv@, block@, block_len, counter, flags),
                forall|k: int| 0 <= k < pos + i ==> #[trigger] out@[k] == old(out)@[k] ^ xof_output_byte(cv@, block@, block_len, c0, flags, k as nat),
                forall|k: int| pos + i <= k < n ==> #[trigger] out@[k] == old(out)@[k],
            decreases take - i,
        {
            proof {
                let k = (pos + i) as nat;
                assert(k / 64 == pos / 64);
                assert(k % 64 == i);
            }
            out[pos + i] = out[pos + i] ^ block_output[i];
            i += 1;
        }
        pos += take;
        counter += 1;
    }
}

/// XOR extended output, block number `counter` first, into `out`.
pub fn xof_xor(block: &[u8; BLOCK_LEN], block_len: u8, cv: &[u32; 8], counter: u64, flags: u8, out: &mut [u8])
    requires
        counter + (old(out)@.len() + 63) / 64 <= u64::MAX,
    ensures
        final(out)@.len() == old(out)@.len(),
        forall|k: int|
            0 <= k < final(out)@.len() ==> #[trigger] final(out)@[k] == old(out)@[k] ^ xof_output_byte(
                cv@,
                block@,
                block_len as u32,
                counter,
                flags as u32,
                k as nat,
            ),
{
    xof_xor_words(block, block_len as u32, cv, counter, flags as u32, out)
}

} // verus!

verus! {

/// The flags of every block of a universal hash.
pub open spec fn universal_hash_flags() -> u8 {
    (crate::KEYED_HASH | crate::CHUNK_START | crate::CHUNK_END | crate::ROOT) as u8
}

/// The number of blocks a universal hash compresses: one per 64 bytes of
/// input, and one (empty) block for empty input.
pub open spec fn uh_num_blocks(len: nat) -> nat {
    if len == 0 {
        1
    } else {
        ((len + 63) / 64) as nat
    }
}

/// The first 16 output bytes of block `i` of a universal hash: the block
/// zero-padded, with its own length and counter `counter + i`.
pub open spec fn uh_block(input: Seq<u8>, key: Seq<u32>, counter: u64, i: nat) -> Seq<u8> {
    let start = 64int * i;
    let end = if 64int * i + 64 < input.len() {
        64int * i + 64
    } else {
        input.len() as int
    };
    compress_xof_bytes(
        key,
        crate::model::pad_block(input.subrange(start, end)),
        (end - start) as u32,
        (counter + i) as u64,
        universal_hash_flags() as u32,
    ).subrange(0, 16)
}

/// The XOR of the first `k` blocks' outputs.
pub open spec fn uh_acc(input: Seq<u8>, key: Seq<u32>, counter: u64, k: nat) -> Seq<u8>
    decreases k,
{
    if k == 0 {
        Seq::new(16, |i: int| 0u8)
    } else {
        let prev = uh_acc(input, key, counter, (k - 1) as nat);
        let b = uh_block(input, key, counter, (k - 1) as nat);
        Seq::new(16, |i: int| prev[i] ^ b[i])
    }
}

/// The universal hash of `input`: the XOR of the first 16 output bytes of
/// each of its blocks, compressed as keyed root chunks.
pub open spec fn universal_hash_spec(input: Seq<u8>, key: Seq<u32>, counter: u64) -> Seq<u8> {
    uh_acc(input, key, counter, uh_num_blocks(input.len()))
}

/// XOR the first 16 bytes of `block_output` into `result`.
pub(crate) fn xor_into(result: &mut [u8; 16], block_output: &[u8; 64])
    ensures
        forall|i: int| 0 <= i < 16 ==> #[trigger] final(result)@[i] == old(result)@[i] ^ block_output@[i],
{
    let mut i: usize = 0;
    while i < crate::UNIVERSAL_HASH_LEN
        invariant
            i <= 16,
            forall|k: int| 0 <= k < i ==> #[trigger] result@[k] == old(result)@[k] ^ block_output@[k],
            forall|k: int| i <= k < 16 ==> #[trigger] result@[k] == old(result)@[k],
        decreases 16 - i,
    {
        result[i] = result[i] ^ block_output[i];
        i += 1;
    }
}

/// A 16-byte universal hash of `input` under `key`, its blocks numbered
/// from `counter`.
pub fn universal_hash(input: &[u8], key: &[u32; 8], counter: u64) -> (r: [u8; crate::UNIVERSAL_HASH_LEN])
    requires
        counter + uh_num_blocks(input@.len()) - 1 <= u64::MAX,
    ensures
        r@ == universal_hash_spec(input@, key@, counter),
{
    let flags = crate::KEYED_HASH | crate::CHUNK_START | crate::CHUNK_END | crate::ROOT;
    let ghost all = input@;
    let ghost c0 = counter;
    let mut result = [0u8; crate::UNIVERSAL_HASH_LEN];
    let mut input = input;
    let mut counter = counter;
    let ghost mut k: nat = 0;
    proof {
        assert(result@ =~= uh_acc(all, key@, c0, 0));
    }
    while input.len() > BLOCK_LEN
        invariant
            input@ == all.subrange(64int * k, all.len() as int),
            64 * k <= all.len(),
            k > 0 ==> 64 * k < all.len(),
            counter == c0 + k,
            c0 + uh_num_blocks(all.len()) - 1 <= u64::MAX,
            flags == universal_hash_flags(),
            result@ == uh_acc(all, key@, c0, k),
        decreases input@.len(),
    {
        let block = crate::copy_block(input, 0);
        let block_output = compress_xof(key, &block, BLOCK_LEN as u8, counter, flags);
        let ghost prev = result@;
        xor_into(&mut result, &block_output);
        proof {
            assert(all.subrange(64int * k, 64int * k + 64) =~= block@);
            assert(crate::model::pad_block(block@) =~= block@);
            assert(uh_block(all, key@, c0, k) == block_output@.subrange(0, 16));
            assert(result@ =~= uh_acc(all, key@, c0, k + 1));
        }
        let (_, rest) = input.split_at(BLOCK_LEN);
        input = rest;
        counter += 1;
        proof {
            assert(input@ =~= all.subrange(64int * (k + 1), all.len() as int));
            k = k + 1;
        }
    }
    let mut final_block = [0u8; BLOCK_LEN];
    let n: usize = input.len();
    let mut i: usize = 0;
    while i < n
        invariant
            n == input@.len(),
            n <= 64,
            i <= n,
            forall|j: int| 0 <= j < i ==> final_block@[j] == input@[j],
            forall|j: int| i <= j < 64 ==> final_block@[j] == 0,
        decreases n - i,
    {
        final_block[i] = input[i];
        i += 1;
    }
    proof {
        assert(final_block@ =~= crate::model::pad_block(input@));
        assert(uh_num_blocks(all.len()) == k + 1);
    }
    let final_output = compress_xof(key, &final_block, n as u8, counter, flags);
    xor_into(&mut result, &final_output);
    proof {
        assert(input@ =~= all.subrange(64int * k, all.len() as int));
        assert(uh_block(all, key@, c0, k) == final_output@.subrange(0, 16));
        assert(result@ =~= uh_acc(all, key@, c0, k + 1));
    }
    result
}

} // verus!

verus! {

/// The chaining value of the whole chunk `input` (1024 bytes), hashed one
/// block at a time.
fn hash_one_chunk(input: &[u8], start: usize, key: &[u32; 8], counter: u64, flags: u8) -> (cv: [u32; 8])
    requires
        start + 1024 <= input@.len(),
    ensures
        cv@ == crate::model::subtree_cv(key@, input@.subrange(start as int, start + 1024), counter as nat, flags),
{
    let ghost chunk = input@.subrange(start as int, start + 1024);
    let n: usize = input.len();
    let mut cv = *key;
    let mut block_index: usize = 0;
    while block_index < 15
        invariant
            block_index <= 15,
            start + 1024 <= input@.len(),
            n == input@.len(),
            chunk == input@.subrange(start as int, start + 1024),
            cv@ == crate::model::chunk_cv_after(key@, chunk, counter, flags, block_index as nat),
        decreases 15 - block_index,
    {
        let block_flags = if block_index == 0 {
            flags | crate::CHUNK_START
        } else {
            flags
        };
        proof {
            assert(BLOCK_LEN * block_index <= 960);
        }
        let block = crate::copy_block(input, start + BLOCK_LEN * block_index);
        proof {
            crate::lemma_or_zero(flags);
            assert(block@ =~= chunk.subrange(64 * block_index as int, 64 * (block_index + 1) as int));
        }
        compress_in_place(&mut cv, &block, BLOCK_LEN as u8, counter, block_flags);
        block_index += 1;
    }
    proof {
        assert(BLOCK_LEN * 15 == 960);
    }
    let block = crate::copy_block(input, start + BLOCK_LEN * 15);
    compress_in_place(&mut cv, &block, BLOCK_LEN as u8, counter, flags | crate::CHUNK_END);
    proof {
        crate::lemma_or_zero(flags);
        assert(block@ =~= chunk.subrange(960, 1024));
        assert(crate::model::pad_block(chunk.subrange(960, 1024)) =~= chunk.subrange(960, 1024));
        assert(crate::model::blocks_before_last(1024) == 15);
    }
    cv
}

/// Hash whole chunks, each 1024 bytes and at most `MAX_SIMD_DEGREE` of
/// them, numbered from `counter`, and store their chaining values in the
/// columns of `output` from `output_column` on. The other columns are left
/// as they were.
pub fn hash_chunks(
    input: &[u8],
    key: &[u32; 8],
    counter: u64,
    flags: u8,
    output: &mut crate::platform::TransposedVectors,
    output_column: usize,
)
    requires
        input@.len() % 1024 == 0,
        input@.len() / 1024 <= crate::platform::MAX_SIMD_DEGREE,
        output_column + input@.len() / 1024 <= 32,
        input@.len() / 1024 > 0 ==> counter + input@.len() / 1024 - 1 <= u64::MAX,
    ensures
        forall|i: int|
            0 <= i < input@.len() / 1024 ==> #[trigger] crate::platform::tv_column(*final(output), output_column + i)
                == crate::model::subtree_cv(key@, input@.subrange(1024 * i, 1024 * i + 1024), (counter + i) as nat, flags),
        forall|d: int|
            0 <= d < 32 && !(output_column <= d < output_column + input@.len() / 1024) ==> #[trigger] crate::platform::tv_column(
                *final(output),
                d,
            ) == crate::platform::tv_column(*old(output), d),
{
    let num_chunks = input.len() / crate::CHUNK_LEN;
    let mut chunk_index: usize = 0;
    while chunk_index < num_chunks
        invariant
            chunk_index <= num_chunks,
            num_chunks == input@.len() / 1024,
            input@.len() % 1024 == 0,
            output_column + num_chunks <= 32,
            num_chunks > 0 ==> counter + num_chunks - 1 <= u64::MAX,
            forall|i: int|
                0 <= i < chunk_index ==> #[trigger] crate::platform::tv_column(*output, output_column + i)
                    == crate::model::subtree_cv(key@, input@.subrange(1024 * i, 1024 * i + 1024), (counter + i) as nat, flags),
            forall|d: int|
                0 <= d < 32 && !(output_column <= d < output_column + chunk_index) ==> #[trigger] crate::platform::tv_column(*output, d)
                    == crate::platform::tv_column(*old(output), d),
        decreases num_chunks - chunk_index,
    {
        let cv = hash_one_chunk(input, crate::CHUNK_LEN * chunk_index, key, counter + chunk_index as u64, flags);
        crate::platform::set_column(output, output_column + chunk_index, &cv);
        chunk_index += 1;
    }
}

/// The 64-byte parent block over the chaining values in columns `2 * p` and
/// `2 * p + 1`.
fn parent_block(input: &crate::platform::TransposedVectors, p: usize) -> (block: [u8; BLOCK_LEN])
    requires
        2 * p + 1 < 32,
    ensures
        block@ == bytes_of(crate::platform::tv_column(*input, 2 * p as int)) + bytes_of(
            crate::platform::tv_column(*input, 2 * p + 1),
        ),
{
    let left = crate::platform::le_bytes_from_words_32(&crate::platform::get_column(input, 2 * p));
    let right = crate::platform::le_bytes_from_words_32(&crate::platform::get_column(input, 2 * p + 1));
    let mut block = [0u8; BLOCK_LEN];
    let mut i: usize = 0;
    while i < 32
        invariant
            i <= 32,
            forall|k: int| 0 <= k < i ==> block@[k] == left@[k],
            forall|k: int| 0 <= k < i ==> block@[k + 32] == right@[k],
        decreases 32 - i,
    {
        block[i] = left[i];
        block[i + 32] = right[i];
        i += 1;
    }
    assert(block@ =~= left@ + right@);
    block
}

/// Compress `num_parents` parent nodes (at most `MAX_SIMD_DEGREE`), each
/// over the chaining values in columns `2 * p` and `2 * p + 1` of `input`,
/// and store their chaining values in the columns of `output` from
/// `output_column` on. No flags are added: the caller sets `PARENT`.
pub fn hash_parents(
    input: &crate::platform::TransposedVectors,
    num_parents: usize,
    key: &[u32; 8],
    flags: u8,
    output: &mut crate::platform::TransposedVectors,
    output_column: usize,
)
    requires
        num_parents <= crate::platform::MAX_SIMD_DEGREE,
        output_column + num_parents <= 32,
    ensures
        forall|p: int|
            0 <= p < num_parents ==> #[trigger] crate::platform::tv_column(*final(output), output_column + p)
                == compress_cv(
                key@,
                bytes_of(crate::platform::tv_column(*input, 2 * p)) + bytes_of(crate::platform::tv_column(*input, 2 * p + 1)),
                64,
                0,
                flags as u32,
            ),
        forall|d: int|
            0 <= d < 32 && !(output_column <= d < output_column + num_parents) ==> #[trigger] crate::platform::tv_column(
                *final(output),
                d,
            ) == crate::platform::tv_column(*old(output), d),
{
    let mut parent_index: usize = 0;
    while parent_index < num_parents
        invariant
            parent_index <= num_parents,
            num_parents <= 16,
            output_column + num_parents <= 32,
            forall|p: int|
                0 <= p < parent_index ==> #[trigger] crate::platform::tv_column(*output, output_column + p)
                    == compress_cv(
                    key@,
                    bytes_of(crate::platform::tv_column(*input, 2 * p)) + bytes_of(crate::platform::tv_column(*input, 2 * p + 1)),
                    64,
                    0,
                    flags as u32,
                ),
            forall|d: int|
                0 <= d < 32 && !(output_column <= d < output_column + parent_index) ==> #[trigger] crate::platform::tv_column(*output, d)
                    == crate::platform::tv_column(*old(output), d),
        decreases num_parents - parent_index,
    {
        let block = parent_block(input, parent_index);
        let mut cv = *key;
        compress_in_place(&mut cv, &block, BLOCK_LEN as u8, 0, flags);
        crate::platform::set_column(output, output_column + parent_index, &cv);
        parent_index += 1;
    }
}

/// `hash_parents` with the parents written over the front of the input:
/// parent `p` goes to column `p`.
pub fn hash_parents_in_place(
    in_out: &mut crate::platform::TransposedVectors,
    num_parents: usize,
    key: &[u32; 8],
    flags: u8,
)
    requires
        num_parents <= crate::platform::MAX_SIMD_DEGREE,
    ensures
        forall|p: int|
            0 <= p < num_parents ==> #[trigger] crate::platform::tv_column(*final(in_out), p) == compress_cv(
                key@,
                bytes_of(crate::platform::tv_column(*old(in_out), 2 * p)) + bytes_of(
                    crate::platform::tv_column(*old(in_out), 2 * p + 1),
                ),
                64,
                0,
                flags as u32,
            ),
        forall|d: int|
            num_parents <= d < 32 ==> #[trigger] crate::platform::tv_column(*final(in_out), d)
                == crate::platform::tv_column(*old(in_out), d),
{
    let input = *in_out;
    hash_parents(&input, num_parents, key, flags, in_out, 0);
    assert forall|p: int| 0 <= p < num_parents implies #[trigger] crate::platform::tv_column(*in_out, p) == compress_cv(
        key@,
        bytes_of(crate::platform::tv_column(input, 2 * p)) + bytes_of(crate::platform::tv_column(input, 2 * p + 1)),
        64,
        0,
        flags as u32,
    ) by {
        assert(crate::platform::tv_column(*in_out, 0 + p) == crate::platform::tv_column(*in_out, p));
    }
}

} // verus!

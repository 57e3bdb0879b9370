//! The stack of subtree chaining values kept by the incremental hasher: the
//! binary decomposition of the number of chunks hashed so far, and how the
//! stack folds into the root.

use crate::model::{left_len_spec, output_cv, parent_output, subtree_cv, subtree_output, OutputModel};
use crate::tree::{exp2, lemma_exp2_pos, lemma_left_len, num_chunks, parent_cv};
use vstd::prelude::*;

verus! {

/// A power of two.
pub open spec fn is_pow2(n: nat) -> bool
    decreases n,
{
    if n == 1 {
        true
    } else if n >= 2 && n % 2 == 0 {
        is_pow2(n / 2)
    } else {
        false
    }
}

/// The lowest set bit of `a` (0 for 0).
pub open spec fn lowbit(a: nat) -> nat
    decreases a,
{
    if a == 0 {
        0
    } else if a % 2 == 1 {
        1
    } else {
        2 * lowbit(a / 2)
    }
}

/// The number of set bits of `a`.
pub open spec fn popcount(a: nat) -> nat
    decreases a,
{
    if a == 0 {
        0
    } else {
        a % 2 + popcount(a / 2)
    }
}

pub proof fn lemma_lowbit_pos(a: nat)
    requires
        a > 0,
    ensures
        1 <= lowbit(a) <= a,
        is_pow2(lowbit(a)),
        a % lowbit(a) == 0,
        (a / lowbit(a)) % 2 == 1,
    decreases a,
{
    if a % 2 == 0 {
        lemma_lowbit_pos(a / 2);
        let l = lowbit(a / 2);
        assert(lowbit(a) == 2 * l);
        assert(is_pow2(2 * l)) by {
            assert((2 * l) / 2 == l);
        }
        let q = (a / 2) / l;
        assert(a / 2 == q * l) by {
            vstd::arithmetic::div_mod::lemma_fundamental_div_mod((a / 2) as int, l as int);
        }
        assert(a == q * (2 * l)) by (nonlinear_arith)
            requires
                a / 2 == q * l,
                a % 2 == 0,
        ;
        vstd::arithmetic::div_mod::lemma_div_multiples_vanish(q as int, (2 * l) as int);
        vstd::arithmetic::div_mod::lemma_mod_multiples_basic(q as int, (2 * l) as int);
        assert(a / (2 * l) == q) by (nonlinear_arith)
            requires
                a == q * (2 * l),
                2 * l > 0,
        ;
    }
}

/// The aligned power-of-two blocks, as (first chunk, number of chunks), that
/// make up the first `a` chunks: one per set bit, largest first.
pub open spec fn decomp(a: nat) -> Seq<(nat, nat)>
    decreases a,
{
    if a == 0 {
        seq![]
    } else {
        proof {
            lemma_lowbit_pos(a);
        }
        decomp((a - lowbit(a)) as nat).push(((a - lowbit(a)) as nat, lowbit(a)))
    }
}

pub proof fn lemma_popcount_lowbit(a: nat)
    requires
        a > 0,
    ensures
        popcount(a) == 1 + popcount((a - lowbit(a)) as nat),
    decreases a,
{
    if a % 2 == 1 {
        assert((a - 1) as nat / 2 == a / 2);
        assert(popcount((a - 1) as nat) == popcount(a / 2)) by {
            if a - 1 > 0 {
            }
        }
    } else {
        lemma_popcount_lowbit(a / 2);
        lemma_lowbit_pos(a / 2);
        let b = (a - lowbit(a)) as nat;
        assert(b / 2 == (a / 2 - lowbit(a / 2)) as nat);
        assert(b % 2 == 0);
        if b > 0 {
        }
    }
}

pub proof fn lemma_decomp_len(a: nat)
    ensures
        decomp(a).len() == popcount(a),
    decreases a,
{
    if a > 0 {
        lemma_lowbit_pos(a);
        lemma_decomp_len((a - lowbit(a)) as nat);
        lemma_popcount_lowbit(a);
    }
}

pub proof fn lemma_popcount_succ(m: nat)
    ensures
        popcount(m + 1) <= popcount(m) + 1,
    decreases m,
{
    if m % 2 == 0 {
        assert((m + 1) / 2 == m / 2);
    } else {
        assert((m + 1) / 2 == m / 2 + 1);
        lemma_popcount_succ(m / 2);
    }
}

/// Adding an aligned power of two `s` to `a`: without a carry it becomes
/// the new lowest bit; with one, no bit is gained.
pub proof fn lemma_add_pow2(a: nat, s: nat)
    requires
        is_pow2(s),
        a % s == 0,
    ensures
        a % (2 * s) == 0 ==> lowbit(a + s) == s && popcount(a + s) == popcount(a) + 1,
        a % (2 * s) != 0 ==> popcount(a + s) <= popcount(a) && lowbit(a) == s,
    decreases s,
{
    if s == 1 {
        if a % 2 == 0 {
            assert((a + 1) / 2 == a / 2);
            if a > 0 {
            }
        } else {
            assert((a + 1) / 2 == a / 2 + 1);
            lemma_popcount_succ(a / 2);
        }
    } else {
        let h = s / 2;
        assert(s == 2 * h);
        assert(a % 2 == 0) by {
            vstd::arithmetic::div_mod::lemma_mod_mod(a as int, 2, h as int);
        }
        assert((a / 2) % h == 0) by {
            vstd::arithmetic::div_mod::lemma_fundamental_div_mod(a as int, s as int);
            let q = a / s;
            assert(a == q * (2 * h)) by (nonlinear_arith)
                requires
                    a == s * (a / s) + a % s,
                    a % s == 0,
                    q == a / s,
                    s == 2 * h,
            ;
            assert(a / 2 == q * h) by (nonlinear_arith)
                requires
                    a == q * (2 * h),
            ;
            vstd::arithmetic::div_mod::lemma_mod_multiples_basic(q as int, h as int);
        }
        lemma_add_pow2(a / 2, h);
        assert((a + s) / 2 == a / 2 + h);
        assert((a + s) % 2 == 0);
        assert(a % (2 * s) == 0 <==> (a / 2) % (2 * h) == 0) by {
            vstd::arithmetic::div_mod::lemma_fundamental_div_mod((a / 2) as int, (2 * h) as int);
            let q2 = (a / 2) / (2 * h);
            let r2 = (a / 2) % (2 * h);
            assert(a == q2 * (2 * s) + 2 * r2) by (nonlinear_arith)
                requires
                    a / 2 == (2 * h) * q2 + r2,
                    a == 2 * (a / 2),
                    s == 2 * h,
            ;
            assert(0 <= r2 < 2 * h);
            vstd::arithmetic::div_mod::lemma_fundamental_div_mod_converse(a as int, (2 * s) as int, q2 as int, (2 * r2) as int);
        }
        if a > 0 {
        }
    }
}

/// A power of two that divides `a > 0` is at most its lowest bit.
pub proof fn lemma_pow2_divides_le_lowbit(a: nat, s: nat)
    requires
        a > 0,
        is_pow2(s),
        a % s == 0,
    ensures
        s <= lowbit(a),
        lowbit(a) % s == 0,
    decreases s,
{
    if s > 1 {
        let h = s / 2;
        assert(a % 2 == 0) by {
            vstd::arithmetic::div_mod::lemma_mod_mod(a as int, 2, h as int);
        }
        assert((a / 2) % h == 0) by {
            vstd::arithmetic::div_mod::lemma_fundamental_div_mod(a as int, s as int);
            let q = a / s;
            assert(a / 2 == q * h) by (nonlinear_arith)
                requires
                    a == s * (a / s) + a % s,
                    a % s == 0,
                    q == a / s,
                    s == 2 * h,
            ;
            vstd::arithmetic::div_mod::lemma_mod_multiples_basic(q as int, h as int);
        }
        lemma_pow2_divides_le_lowbit(a / 2, h);
        assert(lowbit(a) == 2 * lowbit(a / 2));
        let k = lowbit(a / 2) / h;
        assert(lowbit(a / 2) == k * h) by {
            vstd::arithmetic::div_mod::lemma_fundamental_div_mod(lowbit(a / 2) as int, h as int);
        }
        assert(lowbit(a) == k * s) by (nonlinear_arith)
            requires
                lowbit(a) == 2 * lowbit(a / 2),
                lowbit(a / 2) == k * h,
                s == 2 * h,
        ;
        vstd::arithmetic::div_mod::lemma_mod_multiples_basic(k as int, s as int);
    } else {
        lemma_lowbit_pos(a);
    }
}

pub proof fn lemma_pow2_exp2(n: nat)
    requires
        is_pow2(n),
    ensures
        exists|e: nat| exp2(e) == n,
    decreases n,
{
    if n == 1 {
        assert(exp2(0) == 1);
    } else {
        lemma_pow2_exp2(n / 2);
        let e = choose|e: nat| exp2(e) == n / 2;
        assert(exp2(e + 1) == n);
    }
}

pub proof fn lemma_exp2_is_pow2(e: nat)
    ensures
        is_pow2(exp2(e)),
    decreases e,
{
    if e > 0 {
        lemma_exp2_is_pow2((e - 1) as nat);
        lemma_exp2_pos((e - 1) as nat);
        assert(exp2(e) / 2 == exp2((e - 1) as nat));
    }
}

/// The chaining value of `size` chunks of `x`, from chunk `start`.
pub open spec fn block_cv(key: Seq<u32>, x: Seq<u8>, c0: nat, flags: u8, start: nat, size: nat) -> Seq<u32> {
    subtree_cv(key, x.subrange(1024int * start, 1024int * (start + size)), c0 + start, flags)
}

/// A tree over `s` full chunks followed by more, where `s` is a power of two
/// and the rest is no longer: a parent of the two.
pub proof fn lemma_split_pow2(key: Seq<u32>, y: Seq<u8>, counter: nat, flags: u8, s: nat)
    requires
        is_pow2(s),
        1024int * s < y.len() <= 2048int * s,
    ensures
        left_len_spec(y.len()) == 1024int * s,
        subtree_output(key, y, counter, flags) == parent_output(
            subtree_cv(key, y.subrange(0, 1024int * s), counter, flags),
            subtree_cv(key, y.subrange(1024int * s, y.len() as int), counter + s, flags),
            key,
            flags,
        ),
{
    lemma_pow2_exp2(s);
    let e = choose|e: nat| exp2(e) == s;
    let m = lemma_left_len(y.len());
    assert(num_chunks(y.len()) > s);
    assert(num_chunks(y.len()) <= 2 * s);
    assert(exp2(e + 1) == 2 * s);
    if m < e {
        crate::tree::lemma_exp2_monotone(m + 1, e);
    } else if m > e {
        crate::tree::lemma_exp2_monotone(e + 1, m);
    }
    assert(m == e);
    crate::tree::lemma_subtree_split(key, y, counter, flags);
}

/// A stack of chaining values for the first `j` chunks of `x`: the blocks of
/// `decomp(a)`, then one block `[a, j)` of a power-of-two size dividing `a`
/// that has not been merged yet. Empty when `j` is 0.
pub open spec fn stack_ok(s: Seq<[u8; 32]>, key: Seq<u32>, x: Seq<u8>, c0: nat, flags: u8, a: nat, j: nat) -> bool {
    if j == 0 {
        s.len() == 0 && a == 0
    } else {
        &&& a < j
        &&& is_pow2((j - a) as nat)
        &&& a % ((j - a) as nat) == 0
        &&& 1024int * j <= x.len()
        &&& s.len() == decomp(a).len() + 1
        &&& forall|i: int|
            0 <= i < decomp(a).len() ==> #[trigger] s[i]@ == crate::platform::bytes_of(
                block_cv(key, x, c0, flags, decomp(a)[i].0, decomp(a)[i].1),
            )
        &&& s[s.len() - 1]@ == crate::platform::bytes_of(block_cv(key, x, c0, flags, a, (j - a) as nat))
    }
}

/// A stack of chaining values of exactly the blocks of `decomp(j)`.
pub open spec fn stack_exact(s: Seq<[u8; 32]>, key: Seq<u32>, x: Seq<u8>, c0: nat, flags: u8, j: nat) -> bool {
    &&& 1024int * j <= x.len()
    &&& s.len() == decomp(j).len()
    &&& forall|i: int|
        0 <= i < decomp(j).len() ==> #[trigger] s[i]@ == crate::platform::bytes_of(
            block_cv(key, x, c0, flags, decomp(j)[i].0, decomp(j)[i].1),
        )
}

/// The blocks of `decomp(a)` lie in `[0, a)`, in order.
pub proof fn lemma_decomp_blocks(a: nat)
    ensures
        forall|i: int|
            0 <= i < decomp(a).len() ==> #[trigger] decomp(a)[i].0 + decomp(a)[i].1 <= a,
    decreases a,
{
    if a > 0 {
        lemma_lowbit_pos(a);
        let a2 = (a - lowbit(a)) as nat;
        lemma_decomp_blocks(a2);
        assert(decomp(a) == decomp(a2).push((a2, lowbit(a))));
        assert forall|i: int| 0 <= i < decomp(a).len() implies #[trigger] decomp(a)[i].0 + decomp(a)[i].1 <= a by {
            if i < decomp(a2).len() {
                assert(decomp(a)[i] == decomp(a2)[i]);
            }
        }
    }
}

/// Extending the input keeps every block's chaining value.
pub proof fn lemma_block_cv_extend(key: Seq<u32>, x: Seq<u8>, y: Seq<u8>, c0: nat, flags: u8, start: nat, size: nat)
    requires
        1024int * (start + size) <= x.len(),
        x.len() <= y.len(),
        y.subrange(0, x.len() as int) == x,
    ensures
        block_cv(key, x, c0, flags, start, size) == block_cv(key, y, c0, flags, start, size),
{
    assert(x.subrange(1024int * start, 1024int * (start + size)) =~= y.subrange(1024int * start, 1024int * (start + size)));
}

/// A stack with no pending carry is exact.
pub proof fn lemma_stack_no_carry(s: Seq<[u8; 32]>, key: Seq<u32>, x: Seq<u8>, c0: nat, flags: u8, a: nat, j: nat)
    requires
        stack_ok(s, key, x, c0, flags, a, j),
        j == 0 || a % (2 * (j - a) as nat) == 0,
    ensures
        stack_exact(s, key, x, c0, flags, j),
        s.len() == popcount(j),
{
    lemma_decomp_len(j);
    if j > 0 {
        let sz = (j - a) as nat;
        lemma_add_pow2(a, sz);
        lemma_lowbit_pos(j);
        assert((j - lowbit(j)) as nat == a);
        assert(decomp(j) == decomp(a).push((a, sz)));
    }
}

/// With a pending carry, the stack is longer than the bits of `j`, and
/// merging its top two values gives a stack over the same chunks with one
/// block fewer.
pub proof fn lemma_stack_merge(s: Seq<[u8; 32]>, key: Seq<u32>, x: Seq<u8>, c0: nat, flags: u8, a: nat, j: nat)
    requires
        stack_ok(s, key, x, c0, flags, a, j),
        j > 0,
        a % (2 * (j - a) as nat) != 0,
    ensures
        s.len() >= 2,
        s.len() > popcount(j),
        ({
            let sz = (j - a) as nat;
            let a2 = (a - sz) as nat;
            let l = crate::platform::words_of(s[s.len() - 2]@);
            let r = crate::platform::words_of(s[s.len() - 1]@);
            let merged = s.subrange(0, s.len() - 2);
            &&& a >= sz
            &&& forall|p: [u8; 32]|
                p@ == crate::platform::bytes_of(parent_cv(l, r, key, flags)) ==> stack_ok(
                    merged.push(p),
                    key,
                    x,
                    c0,
                    flags,
                    a2,
                    j,
                )
        }),
{
    let sz = (j - a) as nat;
    lemma_add_pow2(a, sz);
    lemma_lowbit_pos(a);
    lemma_decomp_len(a);
    lemma_decomp_len(j);
    let a2 = (a - sz) as nat;
    assert(lowbit(a) == sz);
    assert(decomp(a) == decomp(a2).push((a2, sz)));
    let n = s.len();
    let l = crate::platform::words_of(s[n - 2]@);
    let r = crate::platform::words_of(s[n - 1]@);
    let lb = block_cv(key, x, c0, flags, a2, sz);
    let rb = block_cv(key, x, c0, flags, a, sz);
    assert(s[n - 2]@ == crate::platform::bytes_of(lb));
    crate::platform::lemma_words_bytes_words(lb);
    crate::platform::lemma_words_bytes_words(rb);
    assert(l == lb);
    assert(r == rb);
    // The merged block [a2, j) has 2 * sz chunks and splits at sz.
    let y = x.subrange(1024int * a2, 1024int * (a2 + 2 * sz));
    assert(is_pow2(2 * sz)) by {
        assert((2 * sz) / 2 == sz);
    }
    lemma_split_pow2(key, y, c0 + a2, flags, sz);
    assert(y.subrange(0, 1024int * sz) =~= x.subrange(1024int * a2, 1024int * (a2 + sz)));
    assert(y.subrange(1024int * sz, y.len() as int) =~= x.subrange(1024int * a, 1024int * (a + sz)));
    assert(parent_cv(l, r, key, flags) == block_cv(key, x, c0, flags, a2, 2 * sz));
    assert(a2 % (2 * sz) == 0) by {
        let q = a / sz;
        vstd::arithmetic::div_mod::lemma_fundamental_div_mod(a as int, sz as int);
        assert(a == q * sz) by (nonlinear_arith)
            requires
                a == sz * (a / sz) + a % sz,
                a % sz == 0,
                q == a / sz,
        ;
        assert(q % 2 == 1);
        let q2 = (q - 1) / 2;
        assert(a2 == q2 * (2 * sz)) by (nonlinear_arith)
            requires
                a == q * sz,
                a2 == a - sz,
                q % 2 == 1,
                q2 == (q - 1) / 2,
                q >= 1,
        ;
        vstd::arithmetic::div_mod::lemma_mod_multiples_basic(q2 as int, (2 * sz) as int);
    }
    let merged = s.subrange(0, n - 2);
    assert forall|p: [u8; 32]| p@ == crate::platform::bytes_of(parent_cv(l, r, key, flags)) implies stack_ok(
        merged.push(p),
        key,
        x,
        c0,
        flags,
        a2,
        j,
    ) by {
        let t = merged.push(p);
        assert forall|i: int| 0 <= i < decomp(a2).len() implies #[trigger] t[i]@ == crate::platform::bytes_of(
            block_cv(key, x, c0, flags, decomp(a2)[i].0, decomp(a2)[i].1),
        ) by {
            assert(t[i] == s[i]);
            assert(decomp(a)[i] == decomp(a2)[i]);
        }
        assert((j - a2) as nat == 2 * sz);
    }
}

/// The root-ward fold of a stack: each value becomes the left child of a
/// parent over what is to its right.
pub open spec fn fold_stack(cvs: Seq<Seq<u32>>, last: OutputModel, key: Seq<u32>, flags: u8) -> OutputModel
    decreases cvs.len(),
{
    if cvs.len() == 0 {
        last
    } else {
        fold_stack(
            cvs.drop_last(),
            parent_output(cvs.last(), output_cv(last), key, flags),
            key,
            flags,
        )
    }
}

/// The chaining values of the blocks of `decomp(a)`.
pub open spec fn decomp_cvs(key: Seq<u32>, x: Seq<u8>, c0: nat, flags: u8, a: nat) -> Seq<Seq<u32>> {
    Seq::new(decomp(a).len(), |i: int| block_cv(key, x, c0, flags, decomp(a)[i].0, decomp(a)[i].1))
}

/// Folding the blocks of `decomp(a)` onto the tree over the rest of the
/// input (no longer than the lowest block) gives the tree over all of it.
pub proof fn lemma_fold_decomp(key: Seq<u32>, x: Seq<u8>, c0: nat, flags: u8, a: nat)
    requires
        x.len() > 1024int * a,
        a > 0 ==> x.len() <= 1024int * (a + lowbit(a)),
    ensures
        fold_stack(
            decomp_cvs(key, x, c0, flags, a),
            subtree_output(key, x.subrange(1024int * a, x.len() as int), c0 + a, flags),
            key,
            flags,
        ) == subtree_output(key, x, c0, flags),
    decreases a,
{
    if a == 0 {
        assert(x.subrange(0, x.len() as int) =~= x);
        assert(decomp_cvs(key, x, c0, flags, a).len() == 0);
    } else {
        lemma_lowbit_pos(a);
        let l = lowbit(a);
        let a2 = (a - l) as nat;
        let cvs = decomp_cvs(key, x, c0, flags, a);
        assert(cvs.drop_last() =~= decomp_cvs(key, x, c0, flags, a2));
        assert(cvs.last() == block_cv(key, x, c0, flags, a2, l));
        let rest = x.subrange(1024int * a2, x.len() as int);
        lemma_split_pow2(key, rest, c0 + a2, flags, l);
        assert(rest.subrange(0, 1024int * l) =~= x.subrange(1024int * a2, 1024int * (a2 + l)));
        assert(rest.subrange(1024int * l, rest.len() as int) =~= x.subrange(1024int * a, x.len() as int));
        if a2 > 0 {
            lemma_strip_lowbit(a);
            lemma_pow2_divides_le_lowbit(a2, 2 * l);
        }
        lemma_fold_decomp(key, x, c0, flags, a2);
    }
}

} // verus!

verus! {

/// `exp2` agrees with vstd's `pow2`.
pub proof fn lemma_exp2_pow2(e: nat)
    ensures
        exp2(e) == vstd::arithmetic::power2::pow2(e),
    decreases e,
{
    if e == 0 {
        vstd::arithmetic::power2::lemma2_to64();
    } else {
        lemma_exp2_pow2((e - 1) as nat);
        vstd::arithmetic::power2::lemma_pow2_unfold(e);
    }
}

/// `2^63` and `2^54`.
pub proof fn lemma_exp2_values()
    ensures
        exp2(63) == 0x8000_0000_0000_0000,
        exp2(54) == 0x40_0000_0000_0000,
{
    lemma_exp2_pow2(63);
    lemma_exp2_pow2(54);
    vstd::arithmetic::power2::lemma2_to64_rest();
}

/// Masking with `p - 1` is the remainder modulo a power of two `p`.
pub proof fn lemma_mask_is_mod(x: u64, p: u64)
    requires
        is_pow2(p as nat),
    ensures
        (p - 1) as u64 & x == x % p,
{
    lemma_pow2_exp2(p as nat);
    let e = choose|e: nat| exp2(e) == p as nat;
    if e >= 64 {
        crate::tree::lemma_exp2_monotone(64, e);
        lemma_exp2_values();
        assert(exp2(64) == 2 * exp2(63));
    }
    lemma_exp2_pow2(e);
    vstd::bits::lemma_u64_low_bits_mask_is_mod(x, e);
    assert((p - 1) as u64 == vstd::bits::low_bits_mask(e) as u64);
    assert(x & ((p - 1) as u64) == ((p - 1) as u64) & x) by (bit_vector);
}

/// Extending the input keeps a stack valid.
pub proof fn lemma_stack_extend(
    s: Seq<[u8; 32]>,
    key: Seq<u32>,
    x: Seq<u8>,
    y: Seq<u8>,
    c0: nat,
    flags: u8,
    a: nat,
    j: nat,
)
    requires
        stack_ok(s, key, x, c0, flags, a, j),
        x.len() <= y.len(),
        y.subrange(0, x.len() as int) == x,
    ensures
        stack_ok(s, key, y, c0, flags, a, j),
{
    if j > 0 {
        lemma_decomp_blocks(a);
        assert forall|i: int| 0 <= i < decomp(a).len() implies #[trigger] s[i]@ == crate::platform::bytes_of(
            block_cv(key, y, c0, flags, decomp(a)[i].0, decomp(a)[i].1),
        ) by {
            lemma_block_cv_extend(key, x, y, c0, flags, decomp(a)[i].0, decomp(a)[i].1);
        }
        lemma_block_cv_extend(key, x, y, c0, flags, a, (j - a) as nat);
    }
}

/// An exact stack is a valid stack with no pending carry.
pub proof fn lemma_exact_to_ok(s: Seq<[u8; 32]>, key: Seq<u32>, x: Seq<u8>, c0: nat, flags: u8, j: nat)
    requires
        stack_exact(s, key, x, c0, flags, j),
    ensures
        j == 0 ==> stack_ok(s, key, x, c0, flags, 0, j),
        j > 0 ==> stack_ok(s, key, x, c0, flags, (j - lowbit(j)) as nat, j) && ((j - lowbit(j)) as nat) % (2
            * lowbit(j)) == 0,
{
    if j > 0 {
        lemma_lowbit_pos(j);
        let l = lowbit(j);
        let a = (j - l) as nat;
        assert(decomp(j) == decomp(a).push((a, l)));
        assert forall|i: int| 0 <= i < decomp(a).len() implies #[trigger] s[i]@ == crate::platform::bytes_of(
            block_cv(key, x, c0, flags, decomp(a)[i].0, decomp(a)[i].1),
        ) by {
            assert(decomp(j)[i] == decomp(a)[i]);
        }
        assert(s[s.len() - 1]@ == crate::platform::bytes_of(block_cv(key, x, c0, flags, decomp(j)[decomp(a).len() as int].0, decomp(j)[decomp(a).len() as int].1)));
        // a is an even multiple of l.
        let q = j / l;
        vstd::arithmetic::div_mod::lemma_fundamental_div_mod(j as int, l as int);
        assert(j == q * l) by (nonlinear_arith)
            requires
                j == l * (j / l) + j % l,
                j % l == 0,
                q == j / l,
        ;
        let q2 = (q - 1) / 2;
        assert(a == q2 * (2 * l)) by (nonlinear_arith)
            requires
                j == q * l,
                a == j - l,
                q % 2 == 1,
                q2 == (q - 1) / 2,
                q >= 1,
        ;
        vstd::arithmetic::div_mod::lemma_mod_multiples_basic(q2 as int, (2 * l) as int);
        assert(a % l == 0) by {
            assert(a == (2 * q2) * l) by (nonlinear_arith)
                requires
                    a == q2 * (2 * l),
            ;
            vstd::arithmetic::div_mod::lemma_mod_multiples_basic((2 * q2) as int, l as int);
        }
    } else {
        assert(decomp(0).len() == 0);
    }
}

/// If `h` (a power of two) divides `c0 + j` and `c0` is zero or has a
/// lowest bit of at least `h`, then `h` divides `j`.
pub proof fn lemma_rel_aligned(c0: nat, j: nat, h: nat)
    requires
        is_pow2(h),
        (c0 + j) % h == 0,
        c0 > 0 ==> h <= lowbit(c0),
    ensures
        j % h == 0,
{
    lemma_pow2_exp2(h);
    if c0 > 0 {
        lemma_lowbit_pos(c0);
        lemma_pow2_divides(h, lowbit(c0));
        let l = lowbit(c0);
        let q1 = c0 / l;
        let q2 = l / h;
        vstd::arithmetic::div_mod::lemma_fundamental_div_mod(c0 as int, l as int);
        vstd::arithmetic::div_mod::lemma_fundamental_div_mod(l as int, h as int);
        assert(c0 == (q1 * q2) * h) by (nonlinear_arith)
            requires
                c0 == l * q1 + c0 % l,
                c0 % l == 0,
                l == h * q2 + l % h,
                l % h == 0,
        ;
        let q3 = (c0 + j) / h;
        vstd::arithmetic::div_mod::lemma_fundamental_div_mod((c0 + j) as int, h as int);
        assert(j == (q3 - q1 * q2) * h) by (nonlinear_arith)
            requires
                c0 == (q1 * q2) * h,
                c0 + j == h * q3 + (c0 + j) % h,
                (c0 + j) % h == 0,
        ;
        assert(q3 - q1 * q2 >= 0) by (nonlinear_arith)
            requires
                j == (q3 - q1 * q2) * h,
                h >= 1,
                j >= 0,
        ;
        vstd::arithmetic::div_mod::lemma_mod_multiples_basic(q3 - q1 * q2, h as int);
    }
}

/// A number below `2^k` has at most `k` set bits.
pub proof fn lemma_popcount_bound(n: nat, k: nat)
    requires
        n < exp2(k),
    ensures
        popcount(n) <= k,
    decreases k,
{
    if n > 0 {
        if k == 0 {
            assert(false);
        }
        assert(exp2(k) == 2 * exp2((k - 1) as nat));
        lemma_popcount_bound(n / 2, (k - 1) as nat);
    }
}

/// A smaller power of two divides a larger one.
pub proof fn lemma_pow2_divides(h: nat, l: nat)
    requires
        is_pow2(h),
        is_pow2(l),
        h <= l,
    ensures
        l % h == 0,
    decreases l,
{
    if h == l {
        vstd::arithmetic::div_mod::lemma_mod_self_0(l as int);
    } else {
        assert(l >= 2 && l % 2 == 0);
        if h == 1 {
            assert(l % 1 == 0);
        } else {
            assert(h >= 2 && h % 2 == 0);
            lemma_pow2_divides(h / 2, l / 2);
            let q = (l / 2) / (h / 2);
            vstd::arithmetic::div_mod::lemma_fundamental_div_mod((l / 2) as int, (h / 2) as int);
            assert(l == q * h) by (nonlinear_arith)
                requires
                    l / 2 == (h / 2) * q,
                    l % 2 == 0,
                    h % 2 == 0,
            ;
            vstd::arithmetic::div_mod::lemma_mod_multiples_basic(q as int, h as int);
        }
    }
}

} // verus!

verus! {

/// Dividing a power of two by a smaller one leaves a power of two, with no
/// remainder.
pub proof fn lemma_pow2_div(n: nat, k: nat)
    requires
        is_pow2(n),
        is_pow2(k),
        k <= n,
    ensures
        is_pow2(n / k),
        n == k * (n / k),
    decreases k,
{
    if k == 1 {
        assert(n / 1 == n);
    } else {
        assert(k >= 2 && k % 2 == 0);
        assert(n >= 2 && n % 2 == 0);
        lemma_pow2_div(n / 2, k / 2);
        let q = (n / 2) / (k / 2);
        assert(n == k * q) by (nonlinear_arith)
            requires
                n / 2 == (k / 2) * q,
                n % 2 == 0,
                k % 2 == 0,
        ;
        vstd::arithmetic::div_mod::lemma_div_multiples_vanish(q as int, k as int);
        assert(k * q == q * k) by (nonlinear_arith);
    }
}

/// 1024 is a power of two.
pub proof fn lemma_pow2_1024()
    ensures
        is_pow2(1024),
{
    reveal_with_fuel(is_pow2, 11);
}

/// If `1024 * m` divides `1024 * n`, then `m` divides `n`.
pub proof fn lemma_mod_scaled(n: nat, m: nat)
    requires
        m > 0,
        (1024 * n) % (1024 * m) == 0,
    ensures
        n % m == 0,
{
    let q = (1024 * n) / (1024 * m);
    vstd::arithmetic::div_mod::lemma_fundamental_div_mod((1024 * n) as int, (1024 * m) as int);
    assert(n == m * q) by (nonlinear_arith)
        requires
            1024 * n == (1024 * m) * q + (1024 * n) % (1024 * m),
            (1024 * n) % (1024 * m) == 0,
    ;
    assert(q >= 0) by (nonlinear_arith)
        requires
            n == m * q,
            m > 0,
    ;
    vstd::arithmetic::div_mod::lemma_mod_multiples_basic(q as int, m as int);
    assert(m * q == q * m) by (nonlinear_arith);
}

} // verus!

verus! {

/// Removing the lowest set bit of `a` leaves a multiple of twice that bit.
pub proof fn lemma_strip_lowbit(a: nat)
    requires
        a > 0,
    ensures
        is_pow2(2 * lowbit(a)),
        ((a - lowbit(a)) as nat) % (2 * lowbit(a)) == 0,
{
    lemma_lowbit_pos(a);
    let l = lowbit(a);
    let a2 = (a - l) as nat;
    assert(is_pow2(2 * l)) by {
        assert((2 * l) / 2 == l);
    }
    let q = a / l;
    vstd::arithmetic::div_mod::lemma_fundamental_div_mod(a as int, l as int);
    assert(a == q * l) by (nonlinear_arith)
        requires
            a == l * (a / l),
            q == a / l,
    ;
    let q2 = (q - 1) / 2;
    assert(a2 == q2 * (2 * l)) by (nonlinear_arith)
        requires
            a == q * l,
            a2 == a - l,
            q % 2 == 1,
            q2 == (q - 1) / 2,
            q >= 1,
    ;
    vstd::arithmetic::div_mod::lemma_mod_multiples_basic(q2 as int, (2 * l) as int);
}

} // verus!

verus! {

/// With no partial chunk, a stack over `j > 0` chunks whose merged part is
/// not empty has the children of the tree over the chunks from the lowest
/// merged block on as its top two values, and the rest of the stack folds
/// onto that tree.
pub proof fn lemma_top_pair(s: Seq<[u8; 32]>, key: Seq<u32>, x: Seq<u8>, c0: nat, flags: u8, a: nat, j: nat)
    requires
        stack_ok(s, key, x, c0, flags, a, j),
        j > 0,
        a > 0,
        x.len() == 1024 * j,
    ensures
        s.len() >= 2,
        ({
            let a2 = (a - lowbit(a)) as nat;
            let cvs = decomp_cvs(key, x, c0, flags, a2);
            let n = s.len() as int;
            &&& cvs.len() == n - 2
            &&& forall|i: int| 0 <= i < cvs.len() ==> #[trigger] s[i]@ == crate::platform::bytes_of(cvs[i])
            &&& fold_stack(
                cvs,
                parent_output(
                    crate::platform::words_of(s[n - 2]@),
                    crate::platform::words_of(s[n - 1]@),
                    key,
                    flags,
                ),
                key,
                flags,
            ) == subtree_output(key, x, c0, flags)
        }),
{
    lemma_lowbit_pos(a);
    let l = lowbit(a);
    let a2 = (a - l) as nat;
    let sz = (j - a) as nat;
    lemma_decomp_len(a);
    lemma_decomp_len(a2);
    assert(decomp(a) == decomp(a2).push((a2, l)));
    let n = s.len() as int;
    let lcv = block_cv(key, x, c0, flags, a2, l);
    let rcv = block_cv(key, x, c0, flags, a, sz);
    assert(s[n - 2]@ == crate::platform::bytes_of(lcv)) by {
        assert(decomp(a)[n - 2] == (a2, l));
    }
    crate::platform::lemma_words_bytes_words(lcv);
    crate::platform::lemma_words_bytes_words(rcv);
    let cvs = decomp_cvs(key, x, c0, flags, a2);
    assert forall|i: int| 0 <= i < cvs.len() implies #[trigger] s[i]@ == crate::platform::bytes_of(cvs[i]) by {
        assert(decomp(a)[i] == decomp(a2)[i]);
    }
    // The last `l + sz` chunks form a tree whose left child is the block of
    // `l` chunks.
    lemma_pow2_divides_le_lowbit(a, sz);
    let rest = x.subrange(1024int * a2, x.len() as int);
    lemma_split_pow2(key, rest, c0 + a2, flags, l);
    assert(rest.subrange(0, 1024int * l) =~= x.subrange(1024int * a2, 1024int * (a2 + l)));
    assert(rest.subrange(1024int * l, rest.len() as int) =~= x.subrange(1024int * a, 1024int * j));
    if a2 > 0 {
        lemma_strip_lowbit(a);
        lemma_pow2_divides_le_lowbit(a2, 2 * l);
    }
    lemma_fold_decomp(key, x, c0, flags, a2);
}

} // verus!

verus! {

/// `2^a * 2^b == 2^(a + b)`.
pub proof fn lemma_exp2_mul(a: nat, b: nat)
    ensures
        exp2(a) * exp2(b) == exp2(a + b),
    decreases a,
{
    if a > 0 {
        let a1 = (a - 1) as nat;
        lemma_exp2_mul(a1, b);
        assert(exp2(a) == 2 * exp2(a1));
        assert(a + b == (a1 + b) + 1);
        assert(exp2(a + b) == 2 * exp2(a1 + b));
        assert(exp2(a) * exp2(b) == 2 * (exp2(a1) * exp2(b))) by (nonlinear_arith)
            requires
                exp2(a) == 2 * exp2(a1),
        ;
    } else {
        assert(exp2(a) == 1);
        assert(a + b == b);
    }
}

} // verus!

verus! {

/// A divisor of a power of two is a power of two, no larger.
pub proof fn lemma_pow2_divisor(c: nat, n: nat)
    requires
        is_pow2(c),
        n >= 1,
        c % n == 0,
    ensures
        is_pow2(n),
        n <= c,
    decreases c,
{
    let q = c / n;
    vstd::arithmetic::div_mod::lemma_fundamental_div_mod(c as int, n as int);
    assert(c == n * q);
    if c == 1 {
        assert(n == 1) by (nonlinear_arith)
            requires
                1 == n * q,
                n >= 1,
        ;
    } else {
        assert(c >= 2 && c % 2 == 0);
        if n % 2 == 0 {
            let m = n / 2;
            assert(c / 2 == m * q) by (nonlinear_arith)
                requires
                    c == n * q,
                    n == 2 * m,
            ;
            assert((c / 2) % m == 0) by {
                vstd::arithmetic::div_mod::lemma_mod_multiples_basic(q as int, m as int);
                assert(m * q == q * m) by (nonlinear_arith);
            }
            lemma_pow2_divisor(c / 2, m);
        } else {
            assert(q % 2 == 0) by (nonlinear_arith)
                requires
                    c == n * q,
                    c % 2 == 0,
                    n % 2 == 1,
            {
                vstd::arithmetic::div_mod::lemma_mul_mod_noop(n as int, q as int, 2);
            }
            let r = q / 2;
            assert(c / 2 == n * r) by (nonlinear_arith)
                requires
                    c == n * q,
                    q == 2 * r,
            ;
            assert((c / 2) % n == 0) by {
                vstd::arithmetic::div_mod::lemma_mod_multiples_basic(r as int, n as int);
                assert(n * r == r * n) by (nonlinear_arith);
            }
            lemma_pow2_divisor(c / 2, n);
        }
    }
}

} // verus!

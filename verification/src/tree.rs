//! Facts about the Merkle tree: how the chaining values of consecutive
//! subtrees combine, layer by layer, into the chaining value of the whole.

use crate::model::{
    left_len_spec, output_cv, parent_output, pow2_floor, subtree_cv, subtree_output,
};
use vstd::prelude::*;

verus! {

/// 2 to the power `e`.
pub open spec fn exp2(e: nat) -> nat
    decreases e,
{
    if e == 0 {
        1
    } else {
        2 * exp2((e - 1) as nat)
    }
}

/// The number of halvings (rounding up) that bring `n` down to 1.
pub open spec fn clog2(n: nat) -> nat
    decreases n,
{
    if n <= 1 {
        0
    } else {
        1 + clog2(((n + 1) / 2) as nat)
    }
}

/// The chaining value of a parent node.
pub open spec fn parent_cv(l: Seq<u32>, r: Seq<u32>, key: Seq<u32>, flags: u8) -> Seq<u32> {
    output_cv(parent_output(l, r, key, flags))
}

/// One layer of parent nodes over a list of chaining values; an odd last
/// value moves up unchanged.
pub open spec fn pair_up(w: Seq<Seq<u32>>, key: Seq<u32>, flags: u8) -> Seq<Seq<u32>> {
    Seq::new(
        ((w.len() + 1) / 2) as nat,
        |i: int|
            if 2 * i + 1 < w.len() {
                parent_cv(w[2 * i], w[2 * i + 1], key, flags)
            } else {
                w[2 * i]
            },
    )
}

/// `t` layers of parent nodes.
pub open spec fn pair_up_n(w: Seq<Seq<u32>>, key: Seq<u32>, flags: u8, t: nat) -> Seq<Seq<u32>>
    decreases t,
{
    if t == 0 {
        w
    } else {
        pair_up(pair_up_n(w, key, flags, (t - 1) as nat), key, flags)
    }
}

/// The end of chunk `i` of an input of `len` bytes.
pub open spec fn chunk_end(i: int, len: nat) -> int {
    if 1024 * (i + 1) < len {
        1024 * (i + 1)
    } else {
        len as int
    }
}

/// The number of chunks of an input of `len` bytes.
pub open spec fn num_chunks(len: nat) -> nat {
    ((len + 1023) / 1024) as nat
}

/// The chaining values of the chunks of `x`.
pub open spec fn chunk_cvs(key: Seq<u32>, x: Seq<u8>, counter: nat, flags: u8) -> Seq<Seq<u32>> {
    Seq::new(
        num_chunks(x.len()),
        |i: int| subtree_cv(key, x.subrange(1024 * i, chunk_end(i, x.len())), (counter + i) as nat, flags),
    )
}

/// Condensing `w` all the way gives the chaining value of the subtree `x`.
#[verifier::opaque]
pub open spec fn condenses_to(w: Seq<Seq<u32>>, key: Seq<u32>, flags: u8, x: Seq<u8>, counter: nat) -> bool {
    &&& w.len() >= 1
    &&& pair_up_n(w, key, flags, clog2(w.len())) == seq![subtree_cv(key, x, counter, flags)]
}

/// Condensing `w` down to two values gives the chaining values of the two
/// children of the subtree `x`.
#[verifier::opaque]
pub open spec fn condenses_to_children(
    w: Seq<Seq<u32>>,
    key: Seq<u32>,
    flags: u8,
    x: Seq<u8>,
    counter: nat,
) -> bool {
    let l = left_len_spec(x.len());
    &&& x.len() > 1024
    &&& w.len() >= 2
    &&& pair_up_n(w, key, flags, (clog2(w.len()) - 1) as nat) == seq![
        subtree_cv(key, x.subrange(0, l as int), counter, flags),
        subtree_cv(key, x.subrange(l as int, x.len() as int), counter + l / 1024, flags),
    ]
}

pub proof fn lemma_exp2_pos(e: nat)
    ensures
        exp2(e) >= 1,
    decreases e,
{
    if e > 0 {
        lemma_exp2_pos((e - 1) as nat);
    }
}

pub proof fn lemma_exp2_monotone(a: nat, b: nat)
    requires
        a <= b,
    ensures
        exp2(a) <= exp2(b),
    decreases b,
{
    if a < b {
        lemma_exp2_monotone(a, (b - 1) as nat);
        lemma_exp2_pos((b - 1) as nat);
    }
}

/// `clog2(n)` is the `m` with `2^(m-1) < n <= 2^m`.
pub proof fn lemma_clog2_range(n: nat, m: nat)
    requires
        exp2(m) < n <= exp2(m + 1),
    ensures
        clog2(n) == m + 1,
    decreases m,
{
    if m == 0 {
        assert(n == 2);
        assert(clog2(1) == 0);
    } else {
        let h = ((n + 1) / 2) as nat;
        assert(exp2(m) == 2 * exp2((m - 1) as nat));
        assert(exp2(m + 1) == 2 * exp2(m));
        lemma_clog2_range(h, (m - 1) as nat);
    }
}

pub proof fn lemma_clog2_exp2(p: nat)
    ensures
        clog2(exp2(p)) == p,
{
    if p > 0 {
        assert(exp2(p) == 2 * exp2((p - 1) as nat));
        lemma_exp2_pos((p - 1) as nat);
        lemma_clog2_range(exp2(p), (p - 1) as nat);
    }
}

/// Anything up to `2^p` condenses in at most `p` layers.
pub proof fn lemma_clog2_bound(n: nat, p: nat)
    requires
        1 <= n <= exp2(p),
    ensures
        clog2(n) <= p,
    decreases p,
{
    if n > 1 {
        if p == 0 {
            assert(false);
        } else {
            assert(exp2(p) == 2 * exp2((p - 1) as nat));
            lemma_clog2_bound(((n + 1) / 2) as nat, (p - 1) as nat);
        }
    }
}

/// The length of `t` layers over a power-of-two list.
pub proof fn lemma_pair_up_n_len_pow(w: Seq<Seq<u32>>, key: Seq<u32>, flags: u8, p: nat, t: nat)
    requires
        w.len() == exp2(p),
        t <= p,
    ensures
        pair_up_n(w, key, flags, t).len() == exp2((p - t) as nat),
    decreases t,
{
    if t > 0 {
        lemma_pair_up_n_len_pow(w, key, flags, p, (t - 1) as nat);
        let k = (p - t) as nat;
        assert(exp2(k + 1) == 2 * exp2(k));
    }
}

/// A layer over an even-length prefix does not mix it with what follows.
pub proof fn lemma_pair_up_concat(a: Seq<Seq<u32>>, b: Seq<Seq<u32>>, key: Seq<u32>, flags: u8)
    requires
        a.len() % 2 == 0,
    ensures
        pair_up(a + b, key, flags) == pair_up(a, key, flags) + pair_up(b, key, flags),
{
    let l = pair_up(a + b, key, flags);
    let r = pair_up(a, key, flags) + pair_up(b, key, flags);
    assert(l.len() == r.len());
    assert forall|i: int| 0 <= i < l.len() implies l[i] == r[i] by {
        if i < a.len() / 2 {
        } else {
            let j = i - a.len() / 2;
            assert(2 * i == a.len() + 2 * j);
        }
    }
    assert(l =~= r);
}

/// Layers over a power-of-two-long prefix do not mix it with what follows.
pub proof fn lemma_pair_up_n_concat(
    a: Seq<Seq<u32>>,
    b: Seq<Seq<u32>>,
    key: Seq<u32>,
    flags: u8,
    p: nat,
    t: nat,
)
    requires
        a.len() == exp2(p),
        t <= p,
    ensures
        pair_up_n(a + b, key, flags, t) == pair_up_n(a, key, flags, t) + pair_up_n(b, key, flags, t),
    decreases t,
{
    if t > 0 {
        let t1 = (t - 1) as nat;
        lemma_pair_up_n_concat(a, b, key, flags, p, t1);
        lemma_pair_up_n_len_pow(a, key, flags, p, t1);
        let k = (p - t1) as nat;
        assert(exp2(k) == 2 * exp2((k - 1) as nat));
        lemma_pair_up_concat(pair_up_n(a, key, flags, t1), pair_up_n(b, key, flags, t1), key, flags);
    }
}

pub proof fn lemma_pair_up_single(x: Seq<u32>, key: Seq<u32>, flags: u8, t: nat)
    ensures
        pair_up_n(seq![x], key, flags, t) == seq![x],
    decreases t,
{
    if t > 0 {
        lemma_pair_up_single(x, key, flags, (t - 1) as nat);
        assert(pair_up(seq![x], key, flags) =~= seq![x]);
    }
}

pub proof fn lemma_pair_up_n_add(w: Seq<Seq<u32>>, key: Seq<u32>, flags: u8, a: nat, b: nat)
    ensures
        pair_up_n(w, key, flags, a + b) == pair_up_n(pair_up_n(w, key, flags, a), key, flags, b),
    decreases b,
{
    if b > 0 {
        lemma_pair_up_n_add(w, key, flags, a, (b - 1) as nat);
        assert((a + b - 1) as nat == a + (b - 1) as nat);
    }
}

/// Once condensed to one value, more layers change nothing.
pub proof fn lemma_condensed_stays(w: Seq<Seq<u32>>, key: Seq<u32>, flags: u8, x: Seq<u8>, counter: nat, t: nat)
    requires
        condenses_to(w, key, flags, x, counter),
        t >= clog2(w.len()),
    ensures
        pair_up_n(w, key, flags, t) == seq![subtree_cv(key, x, counter, flags)],
{
    reveal(condenses_to);
    reveal(condenses_to_children);
    let c = clog2(w.len());
    lemma_pair_up_n_add(w, key, flags, c, (t - c) as nat);
    lemma_pair_up_single(subtree_cv(key, x, counter, flags), key, flags, (t - c) as nat);
}

/// Facts about the split of an input of more than one chunk into its left
/// and right subtrees.
pub proof fn lemma_pow2_floor(n: nat)
    requires
        n >= 1,
    ensures
        exists|m: nat| #[trigger] exp2(m) == pow2_floor(n) && exp2(m) <= n < 2 * exp2(m),
    decreases n,
{
    if n <= 1 {
        assert(exp2(0) == 1);
    } else {
        lemma_pow2_floor(n / 2);
        let m = choose|m: nat| #[trigger] exp2(m) == pow2_floor(n / 2) && exp2(m) <= n / 2 < 2 * exp2(m);
        assert(exp2(m + 1) == 2 * exp2(m));
    }
}

/// The left subtree holds `2^m` chunks, where `2^m < chunks <= 2^(m+1)`.
pub proof fn lemma_left_len(len: nat) -> (m: nat)
    requires
        len > 1024,
    ensures
        left_len_spec(len) == exp2(m) * 1024,
        exp2(m) < num_chunks(len) <= exp2(m + 1),
        0 < left_len_spec(len) < len,
{
    let f = ((len - 1) / 1024) as nat;
    lemma_pow2_floor(f);
    let m = choose|m: nat| #[trigger] exp2(m) == pow2_floor(f) && exp2(m) <= f < 2 * exp2(m);
    assert(exp2(m + 1) == 2 * exp2(m));
    assert(num_chunks(len) == f + 1);
    m
}

/// The tree over more than one chunk is a parent over its two subtrees.
pub proof fn lemma_subtree_split(key: Seq<u32>, x: Seq<u8>, counter: nat, flags: u8)
    requires
        x.len() > 1024,
    ensures
        subtree_output(key, x, counter, flags) == parent_output(
            subtree_cv(key, x.subrange(0, left_len_spec(x.len()) as int), counter, flags),
            subtree_cv(
                key,
                x.subrange(left_len_spec(x.len()) as int, x.len() as int),
                counter + left_len_spec(x.len()) / 1024,
                flags,
            ),
            key,
            flags,
        ),
{
    lemma_left_len(x.len());
}

/// Condensing down to the two children, then one more layer, gives the
/// whole subtree.
pub proof fn lemma_children_to_whole(w: Seq<Seq<u32>>, key: Seq<u32>, flags: u8, x: Seq<u8>, counter: nat)
    requires
        condenses_to_children(w, key, flags, x, counter),
    ensures
        condenses_to(w, key, flags, x, counter),
{
    reveal(condenses_to);
    reveal(condenses_to_children);
    let c = clog2(w.len());
    assert(c >= 1) by {
        assert(clog2(w.len()) == 1 + clog2(((w.len() + 1) / 2) as nat));
    }
    lemma_subtree_split(key, x, counter, flags);
    let two = pair_up_n(w, key, flags, (c - 1) as nat);
    assert(pair_up_n(w, key, flags, c) == pair_up(two, key, flags));
    assert(pair_up(two, key, flags) =~= seq![subtree_cv(key, x, counter, flags)]);
}

/// Two lists that condense to the left and right subtrees, the left one a
/// power of two long and at least as long as the right one, condense
/// together to the two children.
pub proof fn lemma_combine(
    a: Seq<Seq<u32>>,
    b: Seq<Seq<u32>>,
    key: Seq<u32>,
    flags: u8,
    p: nat,
    l: Seq<u8>,
    r: Seq<u8>,
    counter: nat,
)
    requires
        a.len() == exp2(p),
        1 <= b.len() <= exp2(p),
        condenses_to(a, key, flags, l, counter),
        condenses_to(b, key, flags, r, counter + l.len() / 1024),
    ensures
        pair_up_n(a + b, key, flags, p) == seq![
            subtree_cv(key, l, counter, flags),
            subtree_cv(key, r, counter + l.len() / 1024, flags),
        ],
{
    reveal(condenses_to);
    reveal(condenses_to_children);
    lemma_pair_up_n_concat(a, b, key, flags, p, p);
    lemma_clog2_exp2(p);
    lemma_clog2_bound(b.len(), p);
    lemma_condensed_stays(b, key, flags, r, counter + l.len() / 1024, p);
}

/// Splitting an input at a chunk boundary splits its chunk list.
pub proof fn lemma_chunk_cvs_split(key: Seq<u32>, x: Seq<u8>, counter: nat, flags: u8, n: nat)
    requires
        1 <= n,
        1024 * n < x.len(),
    ensures
        chunk_cvs(key, x, counter, flags) == chunk_cvs(key, x.subrange(0, 1024 * n as int), counter, flags)
            + chunk_cvs(key, x.subrange(1024 * n as int, x.len() as int), counter + n, flags),
{
    let left = x.subrange(0, 1024 * n as int);
    let right = x.subrange(1024 * n as int, x.len() as int);
    let all = chunk_cvs(key, x, counter, flags);
    let cl = chunk_cvs(key, left, counter, flags);
    let cr = chunk_cvs(key, right, counter + n, flags);
    assert(cl.len() == n);
    assert(all.len() == cl.len() + cr.len());
    assert forall|i: int| 0 <= i < all.len() implies all[i] == (cl + cr)[i] by {
        if i < n {
            assert(x.subrange(1024 * i, chunk_end(i, x.len())) =~= left.subrange(
                1024 * i,
                chunk_end(i, left.len()),
            ));
        } else {
            let j = i - n;
            assert(x.subrange(1024 * i, chunk_end(i, x.len())) =~= right.subrange(
                1024 * j,
                chunk_end(j, right.len()),
            ));
            assert(counter + i == (counter + n) + j);
        }
    }
    assert(all =~= cl + cr);
}

/// The chunk chaining values of any non-empty input condense to the
/// subtree, and (for more than one chunk) to its two children.
pub proof fn lemma_chunk_cvs_condense(key: Seq<u32>, x: Seq<u8>, counter: nat, flags: u8)
    requires
        x.len() >= 1,
    ensures
        condenses_to(chunk_cvs(key, x, counter, flags), key, flags, x, counter),
        x.len() > 1024 ==> condenses_to_children(chunk_cvs(key, x, counter, flags), key, flags, x, counter),
    decreases x.len(),
{
    reveal(condenses_to);
    reveal(condenses_to_children);
    let cc = chunk_cvs(key, x, counter, flags);
    if x.len() <= 1024 {
        assert(cc.len() == 1);
        assert(x.subrange(0, chunk_end(0, x.len())) =~= x);
        assert(cc =~= seq![subtree_cv(key, x, counter, flags)]);
    } else {
        let m = lemma_left_len(x.len());
        let ll = left_len_spec(x.len());
        let n = exp2(m);
        let left = x.subrange(0, ll as int);
        let right = x.subrange(ll as int, x.len() as int);
        lemma_chunk_cvs_split(key, x, counter, flags, n);
        lemma_chunk_cvs_condense(key, left, counter, flags);
        lemma_chunk_cvs_condense(key, right, counter + n, flags);
        let a = chunk_cvs(key, left, counter, flags);
        let b = chunk_cvs(key, right, counter + n, flags);
        assert(a.len() == n);
        assert(b.len() == num_chunks(x.len()) - n);
        lemma_combine(a, b, key, flags, m, left, right, counter);
        lemma_clog2_range(cc.len(), m);
        lemma_children_to_whole(cc, key, flags, x, counter);
    }
}

/// One layer over two lists that condense to the two halves of a subtree
/// condenses to the subtree's children.
pub proof fn lemma_wide_layer(
    a: Seq<Seq<u32>>,
    b: Seq<Seq<u32>>,
    key: Seq<u32>,
    flags: u8,
    p: nat,
    x: Seq<u8>,
    counter: nat,
)
    requires
        p >= 1,
        x.len() > 1024,
        a.len() == exp2(p),
        1 <= b.len() <= exp2(p),
        condenses_to(a, key, flags, x.subrange(0, left_len_spec(x.len()) as int), counter),
        condenses_to(
            b,
            key,
            flags,
            x.subrange(left_len_spec(x.len()) as int, x.len() as int),
            counter + left_len_spec(x.len()) / 1024,
        ),
    ensures
        condenses_to_children(pair_up(a + b, key, flags), key, flags, x, counter),
        2 <= pair_up(a + b, key, flags).len() <= exp2(p),
{
    reveal(condenses_to);
    reveal(condenses_to_children);
    lemma_left_len(x.len());
    let ll = left_len_spec(x.len());
    let left = x.subrange(0, ll as int);
    let w = pair_up(a + b, key, flags);
    assert(left.len() == ll);
    lemma_combine(a, b, key, flags, p, left, x.subrange(ll as int, x.len() as int), counter);
    lemma_pair_up_n_add(a + b, key, flags, 1, (p - 1) as nat);
    assert(pair_up_n(a + b, key, flags, 0) == a + b);
    assert(pair_up_n(a + b, key, flags, 1) == w);
    assert(exp2(p) == 2 * exp2((p - 1) as nat));
    lemma_exp2_pos((p - 1) as nat);
    lemma_clog2_range(w.len(), (p - 1) as nat);
    assert((1 + (p - 1)) as nat == p);
    assert(pair_up_n(w, key, flags, (clog2(w.len()) - 1) as nat) == pair_up_n(a + b, key, flags, p));
}


/// The length of `t` layers over a list of `n` values.
pub open spec fn layers_len(n: nat, t: nat) -> nat
    decreases t,
{
    if t == 0 {
        n
    } else {
        ((layers_len(n, (t - 1) as nat) + 1) / 2) as nat
    }
}

pub proof fn lemma_pair_up_n_len(w: Seq<Seq<u32>>, key: Seq<u32>, flags: u8, t: nat)
    ensures
        pair_up_n(w, key, flags, t).len() == layers_len(w.len(), t),
    decreases t,
{
    if t > 0 {
        lemma_pair_up_n_len(w, key, flags, (t - 1) as nat);
    }
}

pub proof fn lemma_layers_len_shift(n: nat, t: nat)
    ensures
        layers_len(n, t + 1) == layers_len(((n + 1) / 2) as nat, t),
    decreases t,
{
    let h = ((n + 1) / 2) as nat;
    if t > 0 {
        lemma_layers_len_shift(n, (t - 1) as nat);
        assert((t - 1 + 1) as nat == t);
        assert(layers_len(n, t + 1) == ((layers_len(n, t) + 1) / 2) as nat);
        assert(layers_len(h, t) == ((layers_len(h, (t - 1) as nat) + 1) / 2) as nat);
    } else {
        assert(layers_len(n, 1) == ((layers_len(n, 0) + 1) / 2) as nat);
        assert(layers_len(h, 0) == h);
    }
}

/// Condensing `n >= 2` values stops at exactly two values one layer before
/// the end, and has more than two before that.
pub proof fn lemma_layers_len_two(n: nat, t: nat)
    requires
        n >= 2,
        t <= clog2(n) - 1,
    ensures
        t == clog2(n) - 1 ==> layers_len(n, t) == 2,
        t < clog2(n) - 1 ==> layers_len(n, t) > 2,
    decreases n,
{
    let h = ((n + 1) / 2) as nat;
    assert(clog2(n) == 1 + clog2(h));
    if t == 0 {
        if h <= 1 {
            assert(n == 2);
        } else {
            assert(clog2(h) == 1 + clog2(((h + 1) / 2) as nat));
        }
    } else {
        lemma_layers_len_shift(n, (t - 1) as nat);
        assert((t - 1 + 1) as nat == t);
        if h >= 2 {
            lemma_layers_len_two(h, (t - 1) as nat);
        } else {
            assert(false);
        }
    }
}

/// The bytes `b` hold the chaining values `w`, 32 bytes each, from the start.
pub open spec fn holds_cvs(b: Seq<u8>, w: Seq<Seq<u32>>) -> bool {
    &&& b.len() >= 32 * w.len()
    &&& forall|i: int| 0 <= i < w.len() ==> #[trigger] b.subrange(32 * i, 32 * i + 32) == crate::platform::bytes_of(w[i])
    &&& forall|i: int| 0 <= i < w.len() ==> (#[trigger] w[i]).len() == 8
}


pub proof fn lemma_exp2_strict(a: nat, b: nat)
    requires
        a < b,
    ensures
        exp2(a) < exp2(b),
    decreases b,
{
    lemma_exp2_pos(a);
    if a + 1 < b {
        lemma_exp2_strict(a, (b - 1) as nat);
    }
}

/// The larger of the degree and 2: how many values the wide hashing of a
/// big enough subtree returns.
pub open spec fn wide_width(d: nat) -> nat {
    if d >= 2 {
        d
    } else {
        2
    }
}

/// The chaining values returned by the wide subtree hashing with `d` inputs
/// side by side: the chunk values for up to `d` chunks, else one layer of
/// parents over the values of the two subtrees (except in the one-chunk
/// left case, where the two values are returned as they are).
pub open spec fn wide_cvs(key: Seq<u32>, x: Seq<u8>, counter: nat, flags: u8, d: nat) -> Seq<Seq<u32>>
    decreases x.len(),
{
    if x.len() <= d * 1024 {
        chunk_cvs(key, x, counter, flags)
    } else {
        let l = left_len_spec(x.len());
        if 0 < l < x.len() {
            let a = wide_cvs(key, x.subrange(0, l as int), counter, flags, d);
            let b = wide_cvs(key, x.subrange(l as int, x.len() as int), counter + l / 1024, flags, d);
            if l == 1024 {
                a + b
            } else {
                pair_up(a + b, key, flags)
            }
        } else {
            chunk_cvs(key, x, counter, flags)
        }
    }
}

proof fn lemma_degree_below(d: nat, e: nat, m: nat)
    requires
        d == exp2(e),
        exp2(m + 1) > d,
    ensures
        exp2(m) >= d,
{
    if m < e {
        if m + 1 < e {
            lemma_exp2_strict(m + 1, e);
        }
    } else {
        lemma_exp2_monotone(e, m);
    }
}

/// An input of exactly `2^m >= d` chunks gives a full-width list.
pub proof fn lemma_wide_pow2(key: Seq<u32>, x: Seq<u8>, counter: nat, flags: u8, d: nat, e: nat, m: nat)
    requires
        d == exp2(e),
        x.len() == 1024 * exp2(m),
        exp2(m) >= d,
    ensures
        wide_cvs(key, x, counter, flags, d).len() == (if exp2(m) == 1 {
            1
        } else {
            wide_width(d)
        }),
    decreases m,
{
    lemma_exp2_pos(m);
    lemma_exp2_pos(e);
    let w = wide_cvs(key, x, counter, flags, d);
    if x.len() <= d * 1024 {
        assert(exp2(m) <= d) by (nonlinear_arith)
            requires
                x.len() == 1024 * exp2(m),
                x.len() <= d * 1024,
        ;
        assert(num_chunks(x.len()) == exp2(m));
    } else {
        assert(exp2(m) > d) by (nonlinear_arith)
            requires
                x.len() == 1024 * exp2(m),
                x.len() > d * 1024,
        ;
        let m2 = lemma_left_len(x.len());
        assert(num_chunks(x.len()) == exp2(m));
        if m2 + 1 < m {
            lemma_exp2_strict(m2 + 1, m);
        }
        if m2 + 1 > m {
            lemma_exp2_monotone(m, m2);
        }
        assert(m2 + 1 == m);
        let mm = (m - 1) as nat;
        assert(exp2(m) == 2 * exp2(mm));
        let l = left_len_spec(x.len());
        let left = x.subrange(0, l as int);
        let right = x.subrange(l as int, x.len() as int);
        assert(l == exp2(mm) * 1024);
        assert(left.len() == 1024 * exp2(mm));
        assert(right.len() == 1024 * exp2(mm));
        if l == 1024 {
            assert(exp2(mm) == 1);
            assert(d == 1);
            assert(num_chunks(1024) == 1);
            assert(wide_cvs(key, left, counter, flags, d) == chunk_cvs(key, left, counter, flags));
            assert(wide_cvs(key, right, counter + l / 1024, flags, d) == chunk_cvs(key, right, counter + l / 1024, flags));
        } else {
            lemma_degree_below(d, e, mm);
            lemma_wide_pow2(key, left, counter, flags, d, e, mm);
            lemma_wide_pow2(key, right, counter + l / 1024, flags, d, e, mm);
        }
    }
}

proof fn lemma_wide_one_chunk_left(key: Seq<u32>, x: Seq<u8>, counter: nat, flags: u8, d: nat)
    requires
        d == 1,
        1024 < x.len() <= 2048,
        left_len_spec(x.len()) == 1024,
    ensures
        wide_cvs(key, x, counter, flags, d).len() == 2,
        condenses_to_children(wide_cvs(key, x, counter, flags, d), key, flags, x, counter),
{
    reveal(condenses_to);
    reveal(condenses_to_children);
    let left = x.subrange(0, 1024);
    let right = x.subrange(1024, x.len() as int);
    let c2 = counter + 1;
    let a = wide_cvs(key, left, counter, flags, d);
    let b = wide_cvs(key, right, c2, flags, d);
    let w = wide_cvs(key, x, counter, flags, d);
    assert(a == chunk_cvs(key, left, counter, flags));
    assert(b == chunk_cvs(key, right, c2, flags));
    assert(left.subrange(0, chunk_end(0, left.len())) =~= left);
    assert(right.subrange(0, chunk_end(0, right.len())) =~= right);
    assert(w == a + b);
    assert(clog2(2) == 1 + clog2(1));
    assert(pair_up_n(w, key, flags, 0) == w);
    assert(w =~= seq![subtree_cv(key, left, counter, flags), subtree_cv(key, right, c2, flags)]);
}

proof fn lemma_wide_general(key: Seq<u32>, x: Seq<u8>, counter: nat, flags: u8, d: nat, e: nat, m: nat)
    requires
        d == exp2(e),
        x.len() > 1024,
        left_len_spec(x.len()) == exp2(m) * 1024,
        exp2(m) < num_chunks(x.len()) <= exp2(m + 1),
        0 < left_len_spec(x.len()) < x.len(),
        left_len_spec(x.len()) != 1024,
        exp2(m) >= d,
        x.len() > d * 1024,
        ({
            let l = left_len_spec(x.len());
            let left = x.subrange(0, l as int);
            let right = x.subrange(l as int, x.len() as int);
            let c2 = counter + l / 1024;
            &&& 1 <= wide_cvs(key, right, c2, flags, d).len() <= wide_width(d)
            &&& condenses_to_children(wide_cvs(key, left, counter, flags, d), key, flags, left, counter)
            &&& right.len() <= 1024 ==> condenses_to(wide_cvs(key, right, c2, flags, d), key, flags, right, c2)
            &&& right.len() > 1024 ==> condenses_to_children(wide_cvs(key, right, c2, flags, d), key, flags, right, c2)
        }),
    ensures
        2 <= wide_cvs(key, x, counter, flags, d).len() <= wide_width(d),
        condenses_to_children(wide_cvs(key, x, counter, flags, d), key, flags, x, counter),
{
    reveal(condenses_to);
    reveal(condenses_to_children);
    lemma_exp2_pos(e);
    let l = left_len_spec(x.len());
    let left = x.subrange(0, l as int);
    let right = x.subrange(l as int, x.len() as int);
    let c2 = counter + l / 1024;
    let a = wide_cvs(key, left, counter, flags, d);
    let b = wide_cvs(key, right, c2, flags, d);
    assert(left.len() == 1024 * exp2(m));
    lemma_wide_pow2(key, left, counter, flags, d, e, m);
    lemma_children_to_whole(a, key, flags, left, counter);
    if right.len() > 1024 {
        lemma_children_to_whole(b, key, flags, right, c2);
    }
    let p: nat = if e == 0 {
        1
    } else {
        e
    };
    assert(wide_width(d) == exp2(p)) by {
        if e == 0 {
            assert(exp2(1) == 2 * exp2(0));
        }
    }
    assert(wide_cvs(key, x, counter, flags, d) == pair_up(a + b, key, flags));
    lemma_wide_layer(a, b, key, flags, p, x, counter);
}

/// What the wide hashing returns: between one and `wide_width(d)` values,
/// the chunk values for small inputs, and values that condense to the
/// subtree's children.
pub proof fn lemma_wide(key: Seq<u32>, x: Seq<u8>, counter: nat, flags: u8, d: nat, e: nat)
    requires
        d == exp2(e),
        x.len() >= 1,
    ensures
        1 <= wide_cvs(key, x, counter, flags, d).len() <= wide_width(d),
        x.len() <= d * 1024 ==> wide_cvs(key, x, counter, flags, d) == chunk_cvs(key, x, counter, flags),
        x.len() <= 1024 ==> condenses_to(wide_cvs(key, x, counter, flags, d), key, flags, x, counter),
        x.len() > 1024 ==> condenses_to_children(wide_cvs(key, x, counter, flags, d), key, flags, x, counter),
    decreases x.len(),
{
    reveal(condenses_to);
    reveal(condenses_to_children);
    lemma_exp2_pos(e);
    if x.len() <= d * 1024 {
        lemma_chunk_cvs_condense(key, x, counter, flags);
        assert(num_chunks(x.len()) <= d) by (nonlinear_arith)
            requires
                x.len() <= d * 1024,
                num_chunks(x.len()) == (x.len() + 1023) / 1024,
        ;
    } else {
        let m = lemma_left_len(x.len());
        assert(num_chunks(x.len()) > d) by (nonlinear_arith)
            requires
                x.len() > d * 1024,
                num_chunks(x.len()) == (x.len() + 1023) / 1024,
        ;
        assert(exp2(m + 1) == 2 * exp2(m));
        lemma_degree_below(d, e, m);
        let l = left_len_spec(x.len());
        let left = x.subrange(0, l as int);
        let right = x.subrange(l as int, x.len() as int);
        let c2 = counter + l / 1024;
        if l == 1024 {
            assert(exp2(m) == 1);
            lemma_wide_one_chunk_left(key, x, counter, flags, d);
        } else {
            lemma_wide(key, left, counter, flags, d, e);
            lemma_wide(key, right, c2, flags, d, e);
            lemma_wide_general(key, x, counter, flags, d, e, m);
        }
    }
}

} // verus!

verus! {

/// `2^k` divides `2^m` for `k <= m`.
proof fn lemma_exp2_divides(k: nat, m: nat)
    requires
        k <= m,
    ensures
        exp2(m) % exp2(k) == 0,
{
    crate::stack::lemma_exp2_mul(k, (m - k) as nat);
    lemma_exp2_pos(k);
    vstd::arithmetic::div_mod::lemma_mod_multiples_basic(exp2((m - k) as nat) as int, exp2(k) as int);
    assert(exp2(k) * exp2((m - k) as nat) == exp2((m - k) as nat) * exp2(k)) by (nonlinear_arith);
}

/// A power of two `2^m` strictly inside `(a, a + 2^e1)`, for `a` a multiple
/// of `2^e1`, is only possible with `a == 0` and `2^e1 > 2^m`.
proof fn lemma_aligned_vs_split(a: nat, e1: nat, m: nat)
    requires
        a % exp2(e1) == 0,
        a < exp2(m) < a + exp2(e1),
    ensures
        a == 0,
        e1 > m,
{
    let s = exp2(e1);
    let p = exp2(m);
    lemma_exp2_pos(e1);
    if e1 <= m {
        lemma_exp2_divides(e1, m);
        vstd::arithmetic::div_mod::lemma_fundamental_div_mod(a as int, s as int);
        vstd::arithmetic::div_mod::lemma_fundamental_div_mod(p as int, s as int);
        let r = a / s;
        let q = p / s;
        assert(false) by (nonlinear_arith)
            requires
                a == s * r,
                p == s * q,
                a < p < a + s,
                s >= 1,
        ;
    }
    vstd::arithmetic::div_mod::lemma_fundamental_div_mod(a as int, s as int);
    lemma_exp2_strict(m, e1);
    let r = a / s;
    assert(r == 0) by (nonlinear_arith)
        requires
            a == s * r,
            a < p,
            p < s,
    ;
}

/// Replacing an aligned run of `2^(e+1)` whole chunks, starting at chunk
/// `a` of the input, by another whose two halves have the same chaining
/// values leaves the root of the tree unchanged.
#[verifier::spinoff_prover]
#[verifier::rlimit(40)]
pub proof fn lemma_subtree_congruent(
    key: Seq<u32>,
    x: Seq<u8>,
    x2: Seq<u8>,
    counter: nat,
    flags: u8,
    a: nat,
    e: nat,
)
    requires
        x.len() == x2.len(),
        a % exp2(e + 1) == 0,
        1024int * (a + exp2(e + 1)) <= x.len(),
        x.subrange(0, 1024int * a) == x2.subrange(0, 1024int * a),
        x.subrange(1024int * (a + exp2(e + 1)), x.len() as int) == x2.subrange(1024int * (a + exp2(e + 1)), x2.len() as int),
        subtree_cv(key, x.subrange(1024int * a, 1024int * (a + exp2(e))), counter + a, flags) == subtree_cv(
            key,
            x2.subrange(1024int * a, 1024int * (a + exp2(e))),
            counter + a,
            flags,
        ),
        subtree_cv(key, x.subrange(1024int * (a + exp2(e)), 1024int * (a + exp2(e + 1))), counter + a + exp2(e), flags)
            == subtree_cv(
            key,
            x2.subrange(1024int * (a + exp2(e)), 1024int * (a + exp2(e + 1))),
            counter + a + exp2(e),
            flags,
        ),
    ensures
        subtree_output(key, x, counter, flags) == subtree_output(key, x2, counter, flags),
    decreases x.len(),
{
    let h = exp2(e);
    let s = exp2(e + 1);
    let len = x.len();
    lemma_exp2_pos(e);
    assert(s == 2 * h);
    let m = lemma_left_len(len);
    let p = exp2(m);
    let l: nat = 1024 * p;
    assert(left_len_spec(len) == l);
    lemma_subtree_split(key, x, counter, flags);
    lemma_subtree_split(key, x2, counter, flags);
    assert(len / 1024 <= num_chunks(len));
    assert(a + s <= len / 1024) by (nonlinear_arith)
        requires
            1024 * (a + s) <= len,
    ;
    assert(exp2(m + 1) == 2 * p);
    if a + s <= p {
        let xl = x.subrange(0, l as int);
        let x2l = x2.subrange(0, l as int);
        assert(xl.subrange(0, 1024int * a) =~= x.subrange(0, 1024int * a));
        assert(x2l.subrange(0, 1024int * a) =~= x2.subrange(0, 1024int * a));
        assert(xl.subrange(1024int * (a + s), xl.len() as int) =~= x.subrange(1024int * (a + s), l as int));
        assert(x2l.subrange(1024int * (a + s), x2l.len() as int) =~= x2.subrange(1024int * (a + s), l as int));
        assert(x.subrange(1024int * (a + s), l as int) =~= x.subrange(1024int * (a + s), len as int).subrange(
            0,
            l - 1024int * (a + s),
        ));
        assert(x2.subrange(1024int * (a + s), l as int) =~= x2.subrange(1024int * (a + s), len as int).subrange(
            0,
            l - 1024int * (a + s),
        ));
        assert(xl.subrange(1024int * a, 1024int * (a + h)) =~= x.subrange(1024int * a, 1024int * (a + h)));
        assert(x2l.subrange(1024int * a, 1024int * (a + h)) =~= x2.subrange(1024int * a, 1024int * (a + h)));
        assert(xl.subrange(1024int * (a + h), 1024int * (a + s)) =~= x.subrange(1024int * (a + h), 1024int * (a + s)));
        assert(x2l.subrange(1024int * (a + h), 1024int * (a + s)) =~= x2.subrange(1024int * (a + h), 1024int * (a + s)));
        lemma_subtree_congruent(key, xl, x2l, counter, flags, a, e);
        assert(x.subrange(l as int, len as int) =~= x.subrange(1024int * (a + s), len as int).subrange(
            l - 1024int * (a + s),
            len - 1024int * (a + s),
        ));
        assert(x2.subrange(l as int, len as int) =~= x2.subrange(1024int * (a + s), len as int).subrange(
            l - 1024int * (a + s),
            len - 1024int * (a + s),
        ));
    } else if a >= p {
        assert(s <= p) by {
            if s > p {
                lemma_aligned_vs_split_large(a, e + 1, m);
            }
        }
        assert(e + 1 <= m) by {
            if e + 1 > m {
                lemma_exp2_strict(m, e + 1);
            }
        }
        lemma_exp2_divides(e + 1, m);
        let a2 = (a - p) as nat;
        assert(a2 % s == 0) by {
            vstd::arithmetic::div_mod::lemma_fundamental_div_mod(a as int, s as int);
            vstd::arithmetic::div_mod::lemma_fundamental_div_mod(p as int, s as int);
            let r = a / s;
            let q = p / s;
            assert(a2 == s * (r - q)) by (nonlinear_arith)
                requires
                    a == s * r,
                    p == s * q,
                    a2 == a - p,
            ;
            vstd::arithmetic::div_mod::lemma_mod_multiples_basic(r - q, s as int);
            assert(s * (r - q) == (r - q) * s) by (nonlinear_arith);
        }
        let xr = x.subrange(l as int, len as int);
        let x2r = x2.subrange(l as int, len as int);
        let c2 = counter + p;
        assert(xr.subrange(0, 1024int * a2) =~= x.subrange(0, 1024int * a).subrange(l as int, 1024int * a));
        assert(x2r.subrange(0, 1024int * a2) =~= x2.subrange(0, 1024int * a).subrange(l as int, 1024int * a));
        assert(xr.subrange(1024int * (a2 + s), xr.len() as int) =~= x.subrange(1024int * (a + s), len as int));
        assert(x2r.subrange(1024int * (a2 + s), x2r.len() as int) =~= x2.subrange(1024int * (a + s), len as int));
        assert(xr.subrange(1024int * a2, 1024int * (a2 + h)) =~= x.subrange(1024int * a, 1024int * (a + h)));
        assert(x2r.subrange(1024int * a2, 1024int * (a2 + h)) =~= x2.subrange(1024int * a, 1024int * (a + h)));
        assert(xr.subrange(1024int * (a2 + h), 1024int * (a2 + s)) =~= x.subrange(1024int * (a + h), 1024int * (a + s)));
        assert(x2r.subrange(1024int * (a2 + h), 1024int * (a2 + s)) =~= x2.subrange(1024int * (a + h), 1024int * (a + s)));
        assert(c2 + a2 == counter + a);
        lemma_subtree_congruent(key, xr, x2r, c2, flags, a2, e);
        assert(x.subrange(0, l as int) =~= x.subrange(0, 1024int * a).subrange(0, l as int));
        assert(x2.subrange(0, l as int) =~= x2.subrange(0, 1024int * a).subrange(0, l as int));
        assert(l / 1024 == p);
    } else {
        lemma_aligned_vs_split(a, e + 1, m);
        assert(e >= m);
        lemma_exp2_monotone(m, e);
        assert(s >= 2 * p);
        assert(s == 2 * p && h == p);
        assert(len == 1024int * s);
        assert(l / 1024 == p);
        assert(x.subrange(0, l as int) =~= x.subrange(1024int * a, 1024int * (a + h)));
        assert(x2.subrange(0, l as int) =~= x2.subrange(1024int * a, 1024int * (a + h)));
        assert(x.subrange(l as int, len as int) =~= x.subrange(1024int * (a + h), 1024int * (a + s)));
        assert(x2.subrange(l as int, len as int) =~= x2.subrange(1024int * (a + h), 1024int * (a + s)));
    }
}

/// A multiple `a >= 2^m` of `2^e1 > 2^m`, followed by `2^e1` more, ends
/// past `2^(m + 1)`.
proof fn lemma_aligned_vs_split_large(a: nat, e1: nat, m: nat)
    requires
        a % exp2(e1) == 0,
        a >= exp2(m),
        exp2(e1) > exp2(m),
    ensures
        a + exp2(e1) > exp2(m + 1),
{
    let s = exp2(e1);
    let p = exp2(m);
    lemma_exp2_pos(m);
    assert(e1 > m) by {
        if e1 <= m {
            lemma_exp2_monotone(e1, m);
        }
    }
    lemma_exp2_monotone(m + 1, e1);
    vstd::arithmetic::div_mod::lemma_fundamental_div_mod(a as int, s as int);
    let r = a / s;
    assert(r >= 1) by (nonlinear_arith)
        requires
            a == s * r,
            a >= p,
            p >= 1,
    ;
    assert(a >= s) by (nonlinear_arith)
        requires
            a == s * r,
            r >= 1,
            s >= 1,
    ;
}

} // verus!

//! Properties of the library as a whole: how its functions relate to each
//! other, stated over the specifications their contracts use.

use crate::hasher::Hasher;
use crate::model::{chunk_output, left_len_spec, parent_output, root_hash_bytes, subtree_cv, subtree_output, xof_stream, OutputModel};
use crate::platform::bytes_of;
use crate::platform::words_of;
use crate::{derive_key_output, hash_spec, keyed_hash_spec, IV, KEYED_HASH, DERIVE_KEY_CONTEXT, DERIVE_KEY_MATERIAL};
use vstd::prelude::*;
use vstd::string::StringSliceAdditionalSpecFns;

verus! {

/// Incremental hashing agrees with one-shot hashing: a hash state made by
/// `Hasher::new`, however its input was split among calls to `update`,
/// finalizes to `hash` of everything it was given.
pub proof fn law_incremental_hash(h: Hasher)
    requires
        h.wf(),
        h.key_words() == IV@,
        h.mode_flags() == 0,
        h.offset_chunks() == 0,
    ensures
        root_hash_bytes(subtree_output(h.key_words(), h.hashed(), 0, h.mode_flags())) == hash_spec(h.hashed()),
{
}

/// Incremental keyed hashing agrees with `keyed_hash`: a hash state made by
/// `Hasher::new_keyed(key)` finalizes to `keyed_hash(key, input)` of
/// everything it was given.
pub proof fn law_incremental_keyed_hash(key: Seq<u8>, h: Hasher)
    requires
        key.len() == 32,
        h.wf(),
        h.key_words() == words_of(key),
        h.mode_flags() == KEYED_HASH,
        h.offset_chunks() == 0,
    ensures
        root_hash_bytes(subtree_output(h.key_words(), h.hashed(), 0, h.mode_flags())) == keyed_hash_spec(
            key,
            h.hashed(),
        ),
{
}

/// Incremental key derivation agrees with `derive_key`: a hash state made
/// by `Hasher::new_derive_key(context)` produces, as extended output, the
/// bytes `derive_key(context, key_material)` writes for everything it was
/// given as key material.
pub proof fn law_incremental_derive_key(context: &str, h: Hasher, len: nat)
    requires
        h.wf(),
        h.key_words() == words_of(
            root_hash_bytes(subtree_output(IV@, context.spec_bytes(), 0, DERIVE_KEY_CONTEXT)),
        ),
        h.mode_flags() == DERIVE_KEY_MATERIAL,
        h.offset_chunks() == 0,
    ensures
        xof_stream(subtree_output(h.key_words(), h.hashed(), 0, h.mode_flags()), 0, len) == xof_stream(
            derive_key_output(context.spec_bytes(), h.hashed()),
            0,
            len,
        ),
{
}

/// The 32-byte root hash of a node is the first 32 bytes of its extended
/// output: `finalize` is a prefix of what `finalize_xof` reads.
pub proof fn law_hash_is_xof_prefix(o: OutputModel)
    ensures
        root_hash_bytes(o) == xof_stream(o, 0, 32),
{
    assert(root_hash_bytes(o) =~= xof_stream(o, 0, 32));
}

/// Reading extended output in two pieces gives the same bytes as reading
/// it at once.
pub proof fn law_xof_read_in_pieces(o: OutputModel, pos: nat, n1: nat, n2: nat)
    ensures
        xof_stream(o, pos, n1) + xof_stream(o, pos + n1, n2) == xof_stream(o, pos, n1 + n2),
{
    assert(xof_stream(o, pos, n1) + xof_stream(o, pos + n1, n2) =~= xof_stream(o, pos, n1 + n2));
}

/// Reading from a later position gives the bytes that a read from the
/// start would give there: seeking skips output, it does not change it.
pub proof fn law_xof_seek(o: OutputModel, pos: nat, len: nat)
    ensures
        xof_stream(o, pos, len) == xof_stream(o, 0, pos + len).subrange(pos as int, (pos + len) as int),
{
    assert(xof_stream(o, pos, len) =~= xof_stream(o, 0, pos + len).subrange(pos as int, (pos + len) as int));
}

/// Hashing an input in two subtrees and merging them gives the tree over
/// the whole input: the left subtree holds the first `left_len` bytes (the
/// largest power-of-two number of whole chunks that leaves at least one
/// byte), the right one the rest, starting at its own chunk offset. The
/// chaining values that `finalize_non_root` returns, merged by
/// `merge_subtrees_root`, `merge_subtrees_xof` or `merge_subtrees_non_root`,
/// thus give what hashing the whole input gives.
pub proof fn law_merge_subtrees(key: Seq<u32>, x: Seq<u8>, counter: nat, flags: u8)
    requires
        x.len() > 1024,
    ensures
        ({
            let l = left_len_spec(x.len());
            parent_output(
                words_of(bytes_of(subtree_cv(key, x.subrange(0, l as int), counter, flags))),
                words_of(bytes_of(subtree_cv(key, x.subrange(l as int, x.len() as int), counter + l / 1024, flags))),
                key,
                flags,
            ) == subtree_output(key, x, counter, flags)
        }),
{
    let l = left_len_spec(x.len());
    crate::platform::lemma_words_bytes_words(subtree_cv(key, x.subrange(0, l as int), counter, flags));
    crate::platform::lemma_words_bytes_words(
        subtree_cv(key, x.subrange(l as int, x.len() as int), counter + l / 1024, flags),
    );
    crate::tree::lemma_subtree_split(key, x, counter, flags);
}

} // verus!

verus! {

/// One pass of the parent shader over the chaining values of `n` blocks of
/// `s` chunks each (`s` a power of two) gives the chaining values of the
/// `n / 2` blocks of `2 * s` chunks each.
pub proof fn law_parent_shader_doubles_blocks(
    key: Seq<u32>,
    y: Seq<u8>,
    counter: nat,
    flags: u8,
    n: nat,
    s: nat,
    b: Seq<u8>,
)
    requires
        crate::stack::is_pow2(s),
        n % 2 == 0,
        y.len() >= 1024 * s * n,
        crate::tree::holds_cvs(b, crate::gpu::block_cvs(key, y, counter, flags, n, s)),
    ensures
        crate::gpu::parent_layer(key, b, flags, n / 2) == crate::gpu::block_cvs(key, y, counter, flags, n / 2, 2 * s),
{
    crate::gpu::lemma_parent_layer_pairs(key, b, flags, crate::gpu::block_cvs(key, y, counter, flags, n, s));
    crate::gpu::lemma_pair_up_blocks(key, y, counter, flags, n, s);
}

/// The chunk shader's values over `2^p` chunks `y` that follow what the hash
/// state `h` hashed, with `t` layers of parents over them, leaving more than
/// two values, are an output that `update_from_gpu` takes for `y` (as
/// little-endian bytes; on a big-endian host, the shader writes them with the
/// bytes of each word reversed).
pub proof fn law_gpu_levels_accepted(h: Hasher, y: Seq<u8>, p: nat, t: nat, b: Seq<u8>)
    requires
        y.len() == 1024 * crate::tree::exp2(p),
        t + 2 <= p,
        b.len() == 32 * crate::tree::exp2((p - t) as nat),
        crate::tree::holds_cvs(
            b,
            crate::tree::pair_up_n(
                crate::gpu::block_cvs(
                    h.key_words(),
                    y,
                    h.offset_chunks() + h.hashed().len() / 1024,
                    h.mode_flags(),
                    crate::tree::exp2(p),
                    1,
                ),
                h.key_words(),
                h.mode_flags(),
                t,
            ),
        ),
    ensures
        crate::gpu::shader_parents(h, y, crate::tree::exp2(p), b),
{
    let c = h.offset_chunks() + h.hashed().len() / 1024;
    let n = crate::tree::exp2((p - t) as nat);
    assert(crate::stack::is_pow2(1)) by {
        reveal_with_fuel(crate::stack::is_pow2, 1);
    }
    crate::gpu::lemma_pair_up_n_blocks(h.key_words(), y, c, h.mode_flags(), p, 1, t);
    assert(1024 * 1 * crate::tree::exp2(p) == y.len());
    crate::stack::lemma_exp2_mul(t, (p - t) as nat);
    assert(t + (p - t) == p);
    crate::tree::lemma_exp2_pos((p - t) as nat);
    assert(b.len() / 32 == n);
    assert(crate::tree::exp2(p) / n == crate::tree::exp2(t)) by {
        vstd::arithmetic::div_mod::lemma_div_multiples_vanish(crate::tree::exp2(t) as int, n as int);
        assert(n * crate::tree::exp2(t) == crate::tree::exp2(t) * n) by (nonlinear_arith);
    }
    assert(1 * crate::tree::exp2(t) == crate::tree::exp2(t));
}

} // verus!

verus! {

/// Bytes hold at most one list of chaining values of a given length.
proof fn lemma_holds_cvs_unique(b: Seq<u8>, w1: Seq<Seq<u32>>, w2: Seq<Seq<u32>>)
    requires
        crate::tree::holds_cvs(b, w1),
        crate::tree::holds_cvs(b, w2),
        w1.len() == w2.len(),
    ensures
        w1 == w2,
{
    assert forall|i: int| 0 <= i < w1.len() implies w1[i] == w2[i] by {
        assert(b.subrange(32 * i, 32 * i + 32) == bytes_of(w1[i]));
        assert(b.subrange(32 * i, 32 * i + 32) == bytes_of(w2[i]));
        crate::platform::lemma_words_bytes_words(w1[i]);
        crate::platform::lemma_words_bytes_words(w2[i]);
    }
    assert(w1 =~= w2);
}

/// Shader output determines the tree: for a hash state `h` and shader
/// output `parents` for the `chunk_count` chunks that follow, any two inputs
/// `y` and `z` with that output give the same root over what `h` hashed,
/// then `y` or `z`, then any `rest`. So the hash after `update_from_gpu`
/// (which hashes some such `y`) is the hash of the input the shader read.
pub proof fn law_gpu_output_determines_tree(
    h: Hasher,
    y: Seq<u8>,
    z: Seq<u8>,
    chunk_count: nat,
    parents: Seq<u8>,
    rest: Seq<u8>,
)
    requires
        h.wf(),
        h.buffered() == 0,
        crate::stack::is_pow2(chunk_count),
        (h.offset_chunks() + h.hashed().len() / 1024) % chunk_count == 0,
        h.fits(h.hashed().len() + 1024 * chunk_count),
        parents.len() % 32 == 0,
        parents.len() / 32 > 2,
        chunk_count % (parents.len() / 32) == 0,
        crate::gpu::shader_parents(h, y, chunk_count, parents),
        crate::gpu::shader_parents(h, z, chunk_count, parents),
    ensures
        subtree_output(h.key_words(), h.hashed() + y + rest, h.offset_chunks(), h.mode_flags()) == subtree_output(
            h.key_words(),
            h.hashed() + z + rest,
            h.offset_chunks(),
            h.mode_flags(),
        ),
{
    let key = h.key_words();
    let flags = h.mode_flags();
    let c0 = h.offset_chunks();
    let old = h.hashed();
    let j = old.len() / 1024;
    let cc = chunk_count;
    let n = parents.len() / 32;
    let c = c0 + j;
    h.lemma_buffered();
    assert(old.len() == 1024 * j);
    // The two inputs have the same block values, hence the same halves.
    let wy = crate::gpu::block_cvs(key, y, c, flags, n, cc / n);
    let wz = crate::gpu::block_cvs(key, z, c, flags, n, cc / n);
    lemma_holds_cvs_unique(parents, wy, wz);
    let p = crate::gpu::lemma_shader_pair(key, y, c, flags, cc, n);
    let p2 = crate::gpu::lemma_shader_pair(key, z, c, flags, cc, n);
    assert(p == p2) by {
        if p < p2 {
            crate::tree::lemma_exp2_strict(p, p2);
        } else if p2 < p {
            crate::tree::lemma_exp2_strict(p2, p);
        }
    }
    // The chunks start at a multiple of their number, relative to the input.
    if c0 > 0 {
        crate::stack::lemma_lowbit_pos(c0);
    }
    crate::stack::lemma_rel_aligned(c0, j, cc);
    crate::stack::lemma_pow2_exp2(cc);
    let e1 = choose|e: nat| crate::tree::exp2(e) == cc;
    assert(e1 >= 1) by {
        if e1 == 0 {
            assert(crate::tree::exp2(0) == 1);
        }
    }
    let e = (e1 - 1) as nat;
    let half = crate::tree::exp2(e);
    assert(cc == 2 * half);
    assert(cc / 2 == half);
    let x = old + y + rest;
    let x2 = old + z + rest;
    assert(x.subrange(0, 1024int * j) =~= x2.subrange(0, 1024int * j));
    assert(x.subrange(1024int * (j + cc), x.len() as int) =~= x2.subrange(1024int * (j + cc), x2.len() as int));
    assert(x.subrange(1024int * j, 1024int * (j + half)) =~= y.subrange(0, 1024int * half));
    assert(x2.subrange(1024int * j, 1024int * (j + half)) =~= z.subrange(0, 1024int * half));
    assert(x.subrange(1024int * (j + half), 1024int * (j + cc)) =~= y.subrange(1024int * half, 2048int * half));
    assert(x2.subrange(1024int * (j + half), 1024int * (j + cc)) =~= z.subrange(1024int * half, 2048int * half));
    assert((e + 1) as nat == e1);
    crate::tree::lemma_subtree_congruent(key, x, x2, c0, flags, j, e);
}

} // verus!

verus! {

/// Feeding input in two calls of `update` or in one call with the two
/// pieces joined gives the same hash state: the same hashed bytes, hence the
/// same root node (and so the same `finalize` and `finalize_xof`). From
/// `Hasher::new` both give `hash` of the joined pieces.
pub proof fn law_update_in_pieces(h0: Hasher, h1: Hasher, h2: Hasher, h3: Hasher, a: Seq<u8>, b: Seq<u8>)
    requires
        h1.hashed() == h0.hashed() + a,
        h2.hashed() == h1.hashed() + b,
        h3.hashed() == h0.hashed() + (a + b),
        h1.key_words() == h0.key_words() && h2.key_words() == h0.key_words() && h3.key_words() == h0.key_words(),
        h1.mode_flags() == h0.mode_flags() && h2.mode_flags() == h0.mode_flags() && h3.mode_flags() == h0.mode_flags(),
        h1.offset_chunks() == h0.offset_chunks() && h2.offset_chunks() == h0.offset_chunks()
            && h3.offset_chunks() == h0.offset_chunks(),
    ensures
        h2.hashed() == h3.hashed(),
        subtree_output(h2.key_words(), h2.hashed(), h2.offset_chunks(), h2.mode_flags()) == subtree_output(
            h3.key_words(),
            h3.hashed(),
            h3.offset_chunks(),
            h3.mode_flags(),
        ),
        h0.hashed() == Seq::<u8>::empty() && h0.key_words() == IV@ && h0.mode_flags() == 0 && h0.offset_chunks()
            == 0 ==> root_hash_bytes(subtree_output(h2.key_words(), h2.hashed(), 0, h2.mode_flags())) == hash_spec(
            a + b,
        ),
{
    assert(h0.hashed() + a + b =~= h0.hashed() + (a + b));
    if h0.hashed() == Seq::<u8>::empty() {
        assert(h0.hashed() + (a + b) =~= a + b);
    }
}

/// What `finalize` returns is the first 32 bytes of what the reader from
/// `finalize_xof` gives, for the same hash state.
pub proof fn law_finalize_is_xof_prefix(h: Hasher)
    ensures
        root_hash_bytes(subtree_output(h.key_words(), h.hashed(), h.offset_chunks(), h.mode_flags())) == xof_stream(
            subtree_output(h.key_words(), h.hashed(), h.offset_chunks(), h.mode_flags()),
            0,
            32,
        ),
{
    law_hash_is_xof_prefix(subtree_output(h.key_words(), h.hashed(), h.offset_chunks(), h.mode_flags()));
}

/// The block of the top parent node of an input of more than one chunk is
/// the two chaining values of its children: merged again as a parent node
/// it gives the tree over the whole input, and so, with the default key
/// from chunk 0, its `hash`.
pub proof fn law_children_block_merges(key: Seq<u32>, x: Seq<u8>, counter: nat, flags: u8)
    requires
        x.len() > 1024,
    ensures
        ({
            let b = crate::children_block(key, x, counter, flags);
            &&& b.len() == 64
            &&& parent_output(words_of(b.subrange(0, 32)), words_of(b.subrange(32, 64)), key, flags)
                == subtree_output(key, x, counter, flags)
        }),
        key == IV@ && counter == 0 && flags == 0 ==> ({
            let b = crate::children_block(key, x, counter, flags);
            root_hash_bytes(parent_output(words_of(b.subrange(0, 32)), words_of(b.subrange(32, 64)), key, flags))
                == hash_spec(x)
        }),
{
    let l = left_len_spec(x.len());
    let lb = bytes_of(subtree_cv(key, x.subrange(0, l as int), counter, flags));
    let rb = bytes_of(subtree_cv(key, x.subrange(l as int, x.len() as int), counter + l / 1024, flags));
    let b = crate::children_block(key, x, counter, flags);
    assert(b.subrange(0, 32) =~= lb);
    assert(b.subrange(32, 64) =~= rb);
    law_merge_subtrees(key, x, counter, flags);
}

/// A subtree state for the right-hand part of an input of more than one
/// chunk, started at `left_len` (a whole number of chunks), can take all of
/// that part: the largest subtree that can start there is at least as long.
pub proof fn law_right_subtree_fits(h: Hasher, n: nat)
    requires
        n > 1024,
        n < 0x1_0000_0000_0000_0000,
        h.offset_chunks() == left_len_spec(n) / 1024,
        h.hashed().len() == 0,
    ensures
        left_len_spec(n) % 1024 == 0,
        left_len_spec(n) / 1024 > 0,
        h.fits((n - left_len_spec(n)) as nat),
{
    let m = crate::tree::lemma_left_len(n);
    let s = crate::tree::exp2(m);
    crate::tree::lemma_exp2_pos(m);
    assert(left_len_spec(n) / 1024 == s);
    assert(crate::tree::exp2(m + 1) == 2 * s);
    assert(n <= 1024 * (2 * s)) by {
        assert(crate::tree::num_chunks(n) <= 2 * s);
    }
    crate::stack::lemma_exp2_is_pow2(m);
    assert(s % s == 0) by {
        vstd::arithmetic::div_mod::lemma_mod_self_0(s as int);
    }
    crate::stack::lemma_pow2_divides_le_lowbit(s, s);
}

/// Hash states for the left and right subtrees of an input, merged as a
/// parent node in the same mode, give the tree over the whole input: the
/// root of `merge_subtrees_root` or `merge_subtrees_xof` is that of
/// `finalize` over the whole input, and the chaining value of
/// `merge_subtrees_non_root` is that of `finalize_non_root` over it.
pub proof fn law_merge_subtree_hashers(left: Hasher, right: Hasher, x: Seq<u8>, lcv: Seq<u8>, rcv: Seq<u8>)
    requires
        x.len() > 1024,
        left.key_words() == right.key_words(),
        left.mode_flags() == right.mode_flags(),
        left.hashed() == x.subrange(0, left_len_spec(x.len()) as int),
        right.hashed() == x.subrange(left_len_spec(x.len()) as int, x.len() as int),
        right.offset_chunks() == left.offset_chunks() + left_len_spec(x.len()) / 1024,
        lcv == bytes_of(subtree_cv(left.key_words(), left.hashed(), left.offset_chunks(), left.mode_flags())),
        rcv == bytes_of(subtree_cv(right.key_words(), right.hashed(), right.offset_chunks(), right.mode_flags())),
    ensures
        parent_output(words_of(lcv), words_of(rcv), left.key_words(), left.mode_flags()) == subtree_output(
            left.key_words(),
            x,
            left.offset_chunks(),
            left.mode_flags(),
        ),
        crate::tree::parent_cv(words_of(lcv), words_of(rcv), left.key_words(), left.mode_flags()) == subtree_cv(
            left.key_words(),
            x,
            left.offset_chunks(),
            left.mode_flags(),
        ),
        left.key_words() == IV@ && left.mode_flags() == 0 && left.offset_chunks() == 0 ==> root_hash_bytes(
            parent_output(words_of(lcv), words_of(rcv), left.key_words(), left.mode_flags()),
        ) == hash_spec(x),
{
    law_merge_subtrees(left.key_words(), x, left.offset_chunks(), left.mode_flags());
}

/// A hash state keyed by the context key of `context` (as `context_key`
/// returns it) in key-derivation mode gives, for the key material it
/// hashed, what `derive_key` and `Hasher::new_derive_key` give.
pub proof fn law_context_key_hasher(context: &str, k: Seq<u8>, h: Hasher, len: nat)
    requires
        k == root_hash_bytes(subtree_output(IV@, context.spec_bytes(), 0, DERIVE_KEY_CONTEXT)),
        h.key_words() == words_of(k),
        h.mode_flags() == DERIVE_KEY_MATERIAL,
        h.offset_chunks() == 0,
    ensures
        subtree_output(h.key_words(), h.hashed(), 0, h.mode_flags()) == derive_key_output(
            context.spec_bytes(),
            h.hashed(),
        ),
        xof_stream(subtree_output(h.key_words(), h.hashed(), 0, h.mode_flags()), 0, len) == xof_stream(
            derive_key_output(context.spec_bytes(), h.hashed()),
            0,
            len,
        ),
{
}

/// Feeding a chunk state in two calls of `update` or in one with the two
/// pieces joined gives the same chunk; and a first chunk finalized as the
/// root gives `hash` of its bytes.
pub proof fn law_chunk_update_in_pieces(
    s0: crate::guts::ChunkState,
    s1: crate::guts::ChunkState,
    s2: crate::guts::ChunkState,
    s3: crate::guts::ChunkState,
    a: Seq<u8>,
    b: Seq<u8>,
)
    requires
        s0.input().len() + a.len() + b.len() <= 1024,
        s1.input() == s0.input() + a,
        s2.input() == s1.input() + b,
        s3.input() == s0.input() + (a + b),
        s1.counter() == s0.counter() && s2.counter() == s0.counter() && s3.counter() == s0.counter(),
    ensures
        s2.input() == s3.input(),
        s2.input().len() == s0.input().len() + a.len() + b.len(),
        chunk_output(IV@, s2.input(), s2.counter(), 0) == chunk_output(IV@, s3.input(), s3.counter(), 0),
        s0.counter() == 0 ==> root_hash_bytes(chunk_output(IV@, s2.input(), s2.counter(), 0)) == hash_spec(
            s2.input(),
        ),
{
    assert(s0.input() + a + b =~= s0.input() + (a + b));
}

} // verus!

verus! {

/// The chaining-value stack of a hash state that starts at chunk 0 (as
/// `new`, `new_keyed` and `new_derive_key` make it), after any calls of
/// `update`: it never holds more than 54 values, so no push overflows it,
/// and while a chunk is in progress it holds one value per set bit of the
/// chunk counter (the number of whole chunks hashed).
pub proof fn law_stack_merged(h: Hasher)
    requires
        h.wf(),
        h.offset_chunks() == 0,
    ensures
        h.stack_len() <= 54,
        h.buffered() > 0 ==> h.stack_len() == crate::stack::popcount(
            h.offset_chunks() + ((h.hashed().len() - h.buffered()) / 1024) as nat,
        ),
{
    h.lemma_stack_merged();
}

} // verus!

verus! {

/// Whether a hash state was made for the subtree mode `mode` of `hazmat`:
/// by `Hasher::new` for `Hash`, by `Hasher::new_keyed(k)` for
/// `KeyedHash(k)`, by `new_from_context_key(k)` for `DeriveKeyMaterial(k)`.
pub open spec fn made_for_hazmat_mode(h: Hasher, mode: crate::hazmat::Mode) -> bool {
    match mode {
        crate::hazmat::Mode::Hash => h.key_words() == IV@ && h.mode_flags() == 0,
        crate::hazmat::Mode::KeyedHash(k) => h.key_words() == words_of(k@) && h.mode_flags() == KEYED_HASH,
        crate::hazmat::Mode::DeriveKeyMaterial(k) => h.key_words() == words_of(k@) && h.mode_flags()
            == DERIVE_KEY_MATERIAL,
    }
}

/// Whether a hash state was made for the subtree mode `mode` of `guts`.
pub open spec fn made_for_guts_mode(h: Hasher, mode: crate::guts::Mode) -> bool {
    match mode {
        crate::guts::Mode::Hash => h.key_words() == IV@ && h.mode_flags() == 0,
        crate::guts::Mode::KeyedHash(k) => h.key_words() == words_of(k@) && h.mode_flags() == KEYED_HASH,
        crate::guts::Mode::DeriveKeyMaterial(k) => h.key_words() == words_of(k@) && h.mode_flags()
            == DERIVE_KEY_MATERIAL,
    }
}

/// Subtrees of an input hashed by hash states of one mode (the left from
/// the start, the right from `left_len`), merged by `hazmat` in that mode,
/// give what hashing the whole input in that mode gives: the root node of
/// `merge_subtrees_root` and `merge_subtrees_xof` is the whole tree's, the
/// chaining value of `merge_subtrees_non_root` is the whole tree's; in
/// `Hash` mode the root hash is `hash` of the input, in `KeyedHash(k)` mode
/// it is `keyed_hash(k, input)`.
pub proof fn law_hazmat_merge_in_mode(
    mode: crate::hazmat::Mode,
    left: Hasher,
    right: Hasher,
    x: Seq<u8>,
    lcv: Seq<u8>,
    rcv: Seq<u8>,
)
    requires
        x.len() > 1024,
        made_for_hazmat_mode(left, mode),
        made_for_hazmat_mode(right, mode),
        left.offset_chunks() == 0,
        left.hashed() == x.subrange(0, left_len_spec(x.len()) as int),
        right.hashed() == x.subrange(left_len_spec(x.len()) as int, x.len() as int),
        right.offset_chunks() == left_len_spec(x.len()) / 1024,
        lcv == bytes_of(subtree_cv(left.key_words(), left.hashed(), left.offset_chunks(), left.mode_flags())),
        rcv == bytes_of(subtree_cv(right.key_words(), right.hashed(), right.offset_chunks(), right.mode_flags())),
    ensures
        parent_output(
            words_of(lcv),
            words_of(rcv),
            crate::hazmat::mode_key(mode),
            crate::hazmat::mode_flags(mode),
        ) == subtree_output(left.key_words(), x, 0, left.mode_flags()),
        crate::tree::parent_cv(words_of(lcv), words_of(rcv), crate::hazmat::mode_key(mode), crate::hazmat::mode_flags(mode))
            == subtree_cv(left.key_words(), x, 0, left.mode_flags()),
        mode is Hash ==> root_hash_bytes(
            parent_output(words_of(lcv), words_of(rcv), crate::hazmat::mode_key(mode), crate::hazmat::mode_flags(mode)),
        ) == hash_spec(x),
        (mode matches crate::hazmat::Mode::KeyedHash(k) ==> root_hash_bytes(
            parent_output(words_of(lcv), words_of(rcv), crate::hazmat::mode_key(mode), crate::hazmat::mode_flags(mode)),
        ) == keyed_hash_spec(k@, x)),
{
    law_merge_subtrees(left.key_words(), x, 0, left.mode_flags());
}

/// The same for the merging functions of `guts`.
pub proof fn law_guts_merge_in_mode(
    mode: crate::guts::Mode,
    left: Hasher,
    right: Hasher,
    x: Seq<u8>,
    lcv: Seq<u8>,
    rcv: Seq<u8>,
)
    requires
        x.len() > 1024,
        made_for_guts_mode(left, mode),
        made_for_guts_mode(right, mode),
        left.offset_chunks() == 0,
        left.hashed() == x.subrange(0, left_len_spec(x.len()) as int),
        right.hashed() == x.subrange(left_len_spec(x.len()) as int, x.len() as int),
        right.offset_chunks() == left_len_spec(x.len()) / 1024,
        lcv == bytes_of(subtree_cv(left.key_words(), left.hashed(), left.offset_chunks(), left.mode_flags())),
        rcv == bytes_of(subtree_cv(right.key_words(), right.hashed(), right.offset_chunks(), right.mode_flags())),
    ensures
        parent_output(words_of(lcv), words_of(rcv), crate::guts::mode_key(mode), crate::guts::mode_flags(mode))
            == subtree_output(left.key_words(), x, 0, left.mode_flags()),
        crate::tree::parent_cv(words_of(lcv), words_of(rcv), crate::guts::mode_key(mode), crate::guts::mode_flags(mode))
            == subtree_cv(left.key_words(), x, 0, left.mode_flags()),
        mode is Hash ==> root_hash_bytes(
            parent_output(words_of(lcv), words_of(rcv), crate::guts::mode_key(mode), crate::guts::mode_flags(mode)),
        ) == hash_spec(x),
        (mode matches crate::guts::Mode::KeyedHash(k) ==> root_hash_bytes(
            parent_output(words_of(lcv), words_of(rcv), crate::guts::mode_key(mode), crate::guts::mode_flags(mode)),
        ) == keyed_hash_spec(k@, x)),
{
    law_merge_subtrees(left.key_words(), x, 0, left.mode_flags());
}

} // verus!

verus! {

/// Inside a chunk, the blocks before the last are compressed alike by the
/// kernels of `blake3_guts` and by the chunk of the tree model.
proof fn lemma_guts_cv_after(key: Seq<u32>, c: Seq<u8>, counter: u64, flags: u8, j: nat)
    requires
        1 <= c.len() <= 1024,
        flags & 1 == 0,
        j <= crate::model::blocks_before_last(c.len()),
    ensures
        crate::blake3_guts::guts_chunk_cv_after(key, c, counter, flags as u32, j) == crate::model::chunk_cv_after(
            key,
            c,
            counter,
            flags,
            j,
        ),
    decreases j,
{
    if j > 0 {
        let i = (j - 1) as nat;
        lemma_guts_cv_after(key, c, counter, flags, i);
        let n = c.len();
        let k = crate::model::blocks_before_last(n);
        assert(64 * k <= n - 1) by {
            vstd::arithmetic::div_mod::lemma_fundamental_div_mod((n - 1) as int, 64);
        }
        assert(crate::blake3_guts::guts_num_blocks(n) == k + 1) by {
            vstd::arithmetic::div_mod::lemma_fundamental_div_mod((n - 1) as int, 64);
            vstd::arithmetic::div_mod::lemma_fundamental_div_mod((n + 63) as int, 64);
        }
        assert(crate::blake3_guts::guts_block_len(n, i) == 64);
        assert(crate::blake3_guts::guts_block(c, i) =~= c.subrange(64 * i as int, 64 * j as int));
        if i == 0 {
            assert((flags | 1u8) as u32 == (flags as u32) | 1u32) by (bit_vector);
        } else {
            assert((flags | 0u8) as u32 == (flags as u32) & !1u32) by (bit_vector)
                requires
                    flags & 1 == 0,
            ;
        }
    }
}

/// The chaining value that the kernels of `blake3_guts` compute for a chunk
/// of 1 to 1024 bytes (`hash_chunks`, through `guts_chunk_cv`) is the
/// chaining value of that chunk in the tree model: every block but the
/// last is compressed whole, and the last, zero-padded, with its own length
/// and the end flag. This holds for every mode's flags (no chunk flag of
/// their own).
pub proof fn law_guts_chunk_cv_is_chunk(key: Seq<u32>, c: Seq<u8>, counter: u64, flags: u8)
    requires
        1 <= c.len() <= 1024,
        flags & 1 == 0,
    ensures
        crate::blake3_guts::guts_chunk_cv(key, c, counter, flags as u32) == crate::model::output_cv(
            chunk_output(key, c, counter, flags),
        ),
{
    let n = c.len();
    let k = crate::model::blocks_before_last(n);
    assert(64 * k <= n - 1 && n <= 64 * k + 64) by {
        vstd::arithmetic::div_mod::lemma_fundamental_div_mod((n - 1) as int, 64);
    }
    assert(crate::blake3_guts::guts_num_blocks(n) == k + 1) by {
        vstd::arithmetic::div_mod::lemma_fundamental_div_mod((n - 1) as int, 64);
        vstd::arithmetic::div_mod::lemma_fundamental_div_mod((n + 63) as int, 64);
    }
    lemma_guts_cv_after(key, c, counter, flags, k);
    assert(crate::blake3_guts::guts_block_len(n, k) == (n - 64 * k) as u32);
    assert(crate::blake3_guts::guts_block(c, k) =~= crate::model::pad_block(c.subrange(64 * k as int, n as int)));
    assert(((n - 64 * k) as u8) as u32 == (n - 64 * k) as u32);
    if k == 0 {
        assert(((flags | 1u8) | 2u8) as u32 == ((flags as u32) | 1u32) | 2u32) by (bit_vector);
    } else {
        assert(((flags | 0u8) | 2u8) as u32 == ((flags as u32) & !1u32) | 2u32) by (bit_vector)
            requires
                flags & 1 == 0,
        ;
    }
}

} // verus!

//! The incremental hasher.

use crate::model::{root_hash_bytes, subtree_output, OutputModel};
use crate::outside::{cv_stack_get, cv_stack_items, cv_stack_len, cv_stack_new, cv_stack_pop, cv_stack_push};
use crate::platform::{bytes_of, words_of, Platform};
use crate::stack::{
    block_cv, decomp, decomp_cvs, fold_stack, is_pow2, lowbit, popcount, stack_exact, stack_ok,
};
use crate::model::pow2_floor;
use crate::stack::lemma_stack_extend;
use crate::tree::exp2;
use crate::{largest_power_of_two_leq, ChunkState, Output, OutputReader, CHUNK_LEN, DERIVE_KEY_CONTEXT, DERIVE_KEY_MATERIAL, IV, KEYED_HASH};
use arrayvec::ArrayVec;
use vstd::prelude::*;
use vstd::string::StringSliceAdditionalSpecFns;

verus! {

/// The number of set bits of a word.
pub(crate) fn count_ones(x: u64) -> (n: u32)
    ensures
        n == popcount(x as nat),
{
    proof {
        crate::stack::lemma_exp2_values();
        assert(crate::tree::exp2(64) == 2 * crate::tree::exp2(63));
        crate::stack::lemma_popcount_bound(x as nat, 64);
    }
    let mut y = x;
    let mut n: u32 = 0;
    while y > 0
        invariant
            n + popcount(y as nat) == popcount(x as nat),
            popcount(x as nat) <= 64,
        decreases y,
    {
        proof {
            assert(popcount(y as nat) == y % 2 + popcount((y / 2) as nat));
        }
        n = n + (y % 2) as u32;
        y = y / 2;
    }
    n
}

/// The largest power-of-two number of bytes, at least one chunk and at most
/// `input_len`, whose half divides `count_so_far` (a whole number of chunks).
fn aligned_subtree_len(input_len: usize, count_so_far: u64) -> (subtree_len: usize)
    requires
        input_len > CHUNK_LEN,
        count_so_far % 1024 == 0,
    ensures
        is_pow2(subtree_len as nat),
        CHUNK_LEN <= subtree_len <= input_len,
        (count_so_far as nat) % ((subtree_len / 2) as nat) == 0,
{
    proof {
        crate::stack::lemma_pow2_1024();
    }
    let mut subtree_len = largest_power_of_two_leq(input_len);
    proof {
        crate::tree::lemma_pow2_floor(input_len as nat);
        let m = choose|m: nat| #[trigger] exp2(m) == pow2_floor(input_len as nat) && exp2(m) <= input_len < 2
            * exp2(m);
        crate::stack::lemma_exp2_is_pow2(m);
        if subtree_len < 1024 {
            crate::stack::lemma_pow2_divides(subtree_len as nat, 1024);
            crate::stack::lemma_pow2_div(1024, subtree_len as nat);
            let q = 1024nat / subtree_len as nat;
            assert(q >= 2) by (nonlinear_arith)
                requires
                    1024 == subtree_len * q,
                    subtree_len < 1024,
            ;
            assert(subtree_len <= 512) by (nonlinear_arith)
                requires
                    1024 == subtree_len * q,
                    q >= 2,
            ;
        }
    }
    // Shrink the subtree until half of it divides the count so far.
    while ((subtree_len / 2) - 1) as u64 & count_so_far != 0
        invariant
            is_pow2(subtree_len as nat),
            1024 <= subtree_len <= input_len,
            count_so_far % 1024 == 0,
        decreases subtree_len,
    {
        proof {
            if subtree_len == 1024 {
                crate::stack::lemma_mask_is_mod(count_so_far, 512);
                reveal_with_fuel(is_pow2, 11);
                assert(false);
            }
            crate::stack::lemma_pow2_1024();
            crate::stack::lemma_pow2_divides(1024, subtree_len as nat);
        }
        subtree_len /= 2;
    }
    proof {
        assert(is_pow2((subtree_len / 2) as nat));
        crate::stack::lemma_mask_is_mod(count_so_far, (subtree_len / 2) as u64);
    }
    subtree_len
}

/// An incremental hash state that can accept any number of writes.
pub struct Hasher {
    pub(crate) key: [u32; 8],
    pub(crate) chunk_state: ChunkState,
    pub(crate) initial_chunk_counter: u64,
    pub(crate) cv_stack: ArrayVec<[u8; 32], 55>,
    /// Every byte hashed so far.
    pub(crate) input: Ghost<Seq<u8>>,
    /// The number of chunks covered by the merged part of the stack.
    pub(crate) stack_base: Ghost<nat>,
}

impl Clone for Hasher {
    /// A copy of the hash state, which continues independently.
    fn clone(&self) -> (r: Self)
        ensures
            self.wf() ==> r.wf(),
            r.key_words() == self.key_words(),
            r.mode_flags() == self.mode_flags(),
            r.hashed() == self.hashed(),
            r.offset_chunks() == self.offset_chunks(),
    {
        Hasher {
            key: self.key,
            chunk_state: self.chunk_state,
            initial_chunk_counter: self.initial_chunk_counter,
            cv_stack: crate::outside::cv_stack_clone(&self.cv_stack),
            input: Ghost(self.input@),
            stack_base: Ghost(self.stack_base@),
        }
    }
}

impl Hasher {
    /// The key words the hash state started from.
    pub closed spec fn key_words(self) -> Seq<u32> {
        self.key@
    }

    /// The mode flags (hash, keyed hash, or derived key).
    pub closed spec fn mode_flags(self) -> u8 {
        self.chunk_state.flags
    }

    /// Every byte hashed so far.
    pub closed spec fn hashed(self) -> Seq<u8> {
        self.input@
    }

    /// The number of the chunk this hash state's input starts at.
    pub closed spec fn offset_chunks(self) -> nat {
        self.initial_chunk_counter as nat
    }

    /// The chunks completed so far, relative to the first one.
    pub(crate) closed spec fn done(self) -> nat {
        (self.chunk_state.chunk_counter - self.initial_chunk_counter) as nat
    }

    pub closed spec fn wf(self) -> bool {
        let j = self.done();
        let p = self.chunk_state.input@;
        let x = self.input@;
        let a = self.stack_base@;
        let c0 = self.initial_chunk_counter as nat;
        &&& self.chunk_state.wf()
        &&& self.chunk_state.key@ == self.key@
        &&& self.initial_chunk_counter <= self.chunk_state.chunk_counter
        &&& x.len() == 1024 * j + p.len()
        &&& x.subrange(1024int * j, x.len() as int) == p
        &&& 1024 * c0 + x.len() < 0x1_0000_0000_0000_0000
        &&& stack_ok(cv_stack_items(self.cv_stack), self.key@, x, c0, self.chunk_state.flags, a, j)
        &&& p.len() > 0 ==> (j == 0 || a % (2 * (j - a) as nat) == 0)
        &&& p.len() == 0 && j > 0 ==> a > 0
        &&& c0 > 0 ==> x.len() <= 1024 * lowbit(c0)
    }

    pub(crate) fn new_internal(key: &[u32; 8], flags: u8) -> (h: Self)
        ensures
            h.wf(),
            h.key_words() == key@,
            h.mode_flags() == flags,
            h.hashed() == Seq::<u8>::empty(),
            h.offset_chunks() == 0,
    {
        let h = Self {
            key: *key,
            chunk_state: ChunkState::new(key, 0, flags, Platform::portable()),
            initial_chunk_counter: 0,
            cv_stack: cv_stack_new(),
            input: Ghost(Seq::empty()),
            stack_base: Ghost(0),
        };
        assert(h.input@.subrange(0, 0) =~= h.chunk_state.input@);
        h
    }

    /// Construct a new `Hasher` for the regular hash function.
    pub fn new() -> (h: Self)
        ensures
            h.wf(),
            h.key_words() == IV@,
            h.mode_flags() == 0,
            h.hashed() == Seq::<u8>::empty(),
            h.offset_chunks() == 0,
    {
        Self::new_internal(&IV, 0)
    }

    /// Construct a new `Hasher` for the keyed hash function.
    pub fn new_keyed(key: &[u8; 32]) -> (h: Self)
        ensures
            h.wf(),
            h.key_words() == words_of(key@),
            h.mode_flags() == KEYED_HASH,
            h.hashed() == Seq::<u8>::empty(),
            h.offset_chunks() == 0,
    {
        let key_words = crate::platform::words_from_le_bytes_32(key);
        Self::new_internal(&key_words, KEYED_HASH)
    }

    /// Construct a new `Hasher` for the key derivation function. The context
    /// string should be hardcoded, globally unique, and application-specific.
    pub fn new_derive_key(context: &str) -> (h: Self)
        ensures
            h.wf(),
            h.key_words() == words_of(
                root_hash_bytes(subtree_output(IV@, context.spec_bytes(), 0, DERIVE_KEY_CONTEXT)),
            ),
            h.mode_flags() == DERIVE_KEY_MATERIAL,
            h.hashed() == Seq::<u8>::empty(),
            h.offset_chunks() == 0,
    {
        let context_key = crate::hash_all_at_once(context.as_bytes(), &IV, DERIVE_KEY_CONTEXT).root_hash();
        let context_key_words = crate::platform::words_from_le_bytes_32(context_key.as_bytes());
        Self::new_internal(&context_key_words, DERIVE_KEY_MATERIAL)
    }

    /// Merge the stack's pending carries, leaving exactly one chaining
    /// value per set bit of the number of chunks so far.
    fn merge_cv_stack(&mut self, chunk_counter: u64, Ghost(x): Ghost<Seq<u8>>, Ghost(a): Ghost<nat>)
        requires
            chunk_counter >= old(self).initial_chunk_counter,
            chunk_counter - old(self).initial_chunk_counter < 0x40_0000_0000_0000,
            stack_ok(
                cv_stack_items(old(self).cv_stack),
                old(self).key@,
                x,
                old(self).initial_chunk_counter as nat,
                old(self).chunk_state.flags,
                a,
                (chunk_counter - old(self).initial_chunk_counter) as nat,
            ),
        ensures
            stack_exact(
                cv_stack_items(final(self).cv_stack),
                old(self).key@,
                x,
                old(self).initial_chunk_counter as nat,
                old(self).chunk_state.flags,
                (chunk_counter - old(self).initial_chunk_counter) as nat,
            ),
            cv_stack_items(final(self).cv_stack).len() == popcount(
                (chunk_counter - old(self).initial_chunk_counter) as nat,
            ),
            final(self).key == old(self).key,
            final(self).chunk_state == old(self).chunk_state,
            final(self).initial_chunk_counter == old(self).initial_chunk_counter,
            final(self).input == old(self).input,
            final(self).stack_base == old(self).stack_base,
    {
        let ghost j = (chunk_counter - self.initial_chunk_counter) as nat;
        let ghost c0 = self.initial_chunk_counter as nat;
        let ghost flags = self.chunk_state.flags;
        let post_merge_stack_len = count_ones(chunk_counter - self.initial_chunk_counter) as usize;
        let ghost mut base = a;
        while cv_stack_len(&self.cv_stack) > post_merge_stack_len
            invariant
                stack_ok(cv_stack_items(self.cv_stack), self.key@, x, c0, flags, base, j),
                j < 0x40_0000_0000_0000,
                post_merge_stack_len == popcount(j),
                j == (chunk_counter - self.initial_chunk_counter) as nat,
                c0 == self.initial_chunk_counter,
                flags == self.chunk_state.flags,
                self.key == old(self).key,
                self.chunk_state == old(self).chunk_state,
                self.initial_chunk_counter == old(self).initial_chunk_counter,
                self.input == old(self).input,
                self.stack_base == old(self).stack_base,
            decreases cv_stack_items(self.cv_stack).len(),
        {
            let ghost s = cv_stack_items(self.cv_stack);
            proof {
                if j == 0 || base % (2 * (j - base) as nat) == 0 {
                    crate::stack::lemma_stack_no_carry(s, self.key@, x, c0, flags, base, j);
                }
                crate::stack::lemma_stack_merge(s, self.key@, x, c0, flags, base, j);
                crate::stack::lemma_exp2_values();
                crate::stack::lemma_popcount_bound(base, 54);
                crate::stack::lemma_decomp_len(base);
            }
            let right_child = cv_stack_pop(&mut self.cv_stack).unwrap();
            let left_child = cv_stack_pop(&mut self.cv_stack).unwrap();
            let parent_output = crate::parent_node_output(
                &left_child,
                &right_child,
                &self.key,
                self.chunk_state.flags,
                self.chunk_state.platform,
            );
            let p = parent_output.chaining_value();
            proof {
                assert(cv_stack_items(self.cv_stack) =~= s.subrange(0, s.len() - 2));
            }
            cv_stack_push(&mut self.cv_stack, p);
            proof {
                base = (base - (j - base)) as nat;
            }
        }
        proof {
            let s = cv_stack_items(self.cv_stack);
            if !(j == 0 || base % (2 * (j - base) as nat) == 0) {
                crate::stack::lemma_stack_merge(s, self.key@, x, c0, flags, base, j);
            }
            crate::stack::lemma_stack_no_carry(s, self.key@, x, c0, flags, base, j);
        }
    }

    /// Merge, then push the chaining value of `size` chunks starting at
    /// `chunk_counter`. The stack merges lazily: the new value itself is not
    /// merged, so it can never be merged into a root by mistake.
    fn push_cv(
        &mut self,
        new_cv: &[u8; 32],
        chunk_counter: u64,
        Ghost(x): Ghost<Seq<u8>>,
        Ghost(a): Ghost<nat>,
        Ghost(size): Ghost<nat>,
    )
        requires
            chunk_counter >= old(self).initial_chunk_counter,
            ({
                let j = (chunk_counter - old(self).initial_chunk_counter) as nat;
                let c0 = old(self).initial_chunk_counter as nat;
                &&& stack_ok(cv_stack_items(old(self).cv_stack), old(self).key@, x, c0, old(self).chunk_state.flags, a, j)
                &&& is_pow2(size)
                &&& j % size == 0
                &&& 1024 * (j + size) <= x.len()
                &&& j < 0x40_0000_0000_0000
                &&& new_cv@ == bytes_of(block_cv(old(self).key@, x, c0, old(self).chunk_state.flags, j, size))
            }),
        ensures
            stack_ok(
                cv_stack_items(final(self).cv_stack),
                old(self).key@,
                x,
                old(self).initial_chunk_counter as nat,
                old(self).chunk_state.flags,
                (chunk_counter - old(self).initial_chunk_counter) as nat,
                (chunk_counter - old(self).initial_chunk_counter + size) as nat,
            ),
            final(self).key == old(self).key,
            final(self).chunk_state == old(self).chunk_state,
            final(self).initial_chunk_counter == old(self).initial_chunk_counter,
            final(self).input == old(self).input,
            final(self).stack_base == old(self).stack_base,
    {
        let ghost j = (chunk_counter - self.initial_chunk_counter) as nat;
        self.merge_cv_stack(chunk_counter, Ghost(x), Ghost(a));
        proof {
            crate::stack::lemma_exp2_values();
            crate::stack::lemma_popcount_bound(j, 54);
            crate::stack::lemma_decomp_len(j);
        }
        cv_stack_push(&mut self.cv_stack, *new_cv);
        proof {
            let s = cv_stack_items(self.cv_stack);
            assert(s.len() == decomp(j).len() + 1);
            assert forall|i: int| 0 <= i < decomp(j).len() implies #[trigger] s[i]@ == bytes_of(
                block_cv(self.key@, x, self.initial_chunk_counter as nat, self.chunk_state.flags, decomp(j)[i].0, decomp(j)[i].1),
            ) by {
                assert(s[i] == cv_stack_items(old(self).cv_stack)[i] || true);
            }
        }
    }

    /// Between chunks: the chunk state is empty, every byte hashed so far is
    /// a whole chunk, and the hashed bytes are a prefix of `total`, which
    /// fits the hash state's limits.
    pub(crate) closed spec fn at_boundary(self, total: Seq<u8>) -> bool {
        let j = self.done();
        let x = self.input@;
        let c0 = self.initial_chunk_counter as nat;
        &&& self.chunk_state.wf()
        &&& self.chunk_state.input@ == Seq::<u8>::empty()
        &&& self.chunk_state.key@ == self.key@
        &&& self.initial_chunk_counter <= self.chunk_state.chunk_counter
        &&& x.len() == 1024 * j
        &&& x.len() <= total.len()
        &&& total.subrange(0, x.len() as int) == x
        &&& 1024 * c0 + total.len() < 0x1_0000_0000_0000_0000
        &&& c0 > 0 ==> total.len() <= 1024 * lowbit(c0)
        &&& stack_ok(cv_stack_items(self.cv_stack), self.key@, x, c0, self.chunk_state.flags, self.stack_base@, j)
    }

    /// Hash the largest subtree at the front of `input` (more than one
    /// chunk) that fits the tree so far: a power-of-two number of chunks
    /// whose half divides the chunks hashed so far. One chunk is pushed as
    /// it is; a larger subtree is pushed as its two children, so that it is
    /// never merged into a root. Returns the number of bytes taken.
    fn absorb_subtree(&mut self, input: &[u8], Ghost(total): Ghost<Seq<u8>>) -> (n: usize)
        requires
            old(self).at_boundary(total),
            old(self).input@ + input@ == total,
            input@.len() > CHUNK_LEN,
        ensures
            final(self).at_boundary(total),
            CHUNK_LEN <= n <= input@.len(),
            final(self).input@ == old(self).input@ + input@.subrange(0, n as int),
            n == input@.len() ==> final(self).stack_base@ > 0,
            final(self).key == old(self).key,
            final(self).initial_chunk_counter == old(self).initial_chunk_counter,
            final(self).chunk_state.flags == old(self).chunk_state.flags,
    {
        let ghost c0 = self.initial_chunk_counter as nat;
        let ghost j = self.done();
        let ghost x = self.input@;
        let ghost a = self.stack_base@;
        let ghost flags = self.chunk_state.flags;
        proof {
            assert(total.subrange(x.len() as int, total.len() as int) =~= input@);
            crate::stack::lemma_pow2_1024();
        }
        proof {
            assert(x.len() == 1024 * j);
            assert(self.chunk_state.chunk_counter == c0 + j);
            assert(1024 * (c0 + j) < 0x1_0000_0000_0000_0000);
            assert(self.chunk_state.chunk_counter * 1024 < 0x1_0000_0000_0000_0000);
        }
        let count_so_far = self.chunk_state.chunk_counter * CHUNK_LEN as u64;
        let subtree_len = aligned_subtree_len(input.len(), count_so_far);
        let subtree_chunks = (subtree_len / CHUNK_LEN) as u64;
        let (sub, _) = input.split_at(subtree_len);
        let ghost x2 = x + sub@;
        proof {
            assert(x2.subrange(0, x.len() as int) =~= x);
            lemma_stack_extend(cv_stack_items(self.cv_stack), self.key@, x, x2, c0, flags, a, j);
            assert(x2.len() <= total.len());
            assert(total.subrange(0, x2.len() as int) =~= x2);
        }
        let counter = self.chunk_state.chunk_counter;
        if subtree_len <= CHUNK_LEN {
            let mut chunk = ChunkState::new(&self.key, counter, self.chunk_state.flags, self.chunk_state.platform);
            chunk.update(sub);
            let cv = chunk.output().chaining_value();
            proof {
                assert(x2.subrange(1024int * j, 1024int * (j + 1)) =~= sub@);
            }
            self.push_cv(&cv, counter, Ghost(x2), Ghost(a), Ghost(1));
            proof {
                self.stack_base@ = j;
            }
        } else {
            let ghost half = (subtree_len / 2048) as nat;
            proof {
                assert(is_pow2(2048)) by {
                    reveal_with_fuel(is_pow2, 12);
                }
                crate::stack::lemma_pow2_divides(1024, subtree_len as nat);
                crate::stack::lemma_pow2_div(subtree_len as nat, 2048);
                crate::stack::lemma_mod_scaled(c0 + j, half);
                if c0 > 0 {
                    crate::stack::lemma_lowbit_pos(c0);
                }
                crate::stack::lemma_rel_aligned(c0, j, half);
                assert(x2.subrange(1024int * j, x2.len() as int) =~= sub@);
            }
            self.push_children(sub, counter, Ghost(x2), Ghost(a), Ghost(half));
            proof {
                self.stack_base@ = j + half;
            }
        }
        self.chunk_state.chunk_counter = counter + subtree_chunks;
        self.input = Ghost(x2);
        subtree_len
    }

    /// Push the two children of the subtree over `sub`, `2 * half` chunks
    /// starting at chunk `chunk_counter`, which ends the input `x`.
    fn push_children(
        &mut self,
        sub: &[u8],
        chunk_counter: u64,
        Ghost(x): Ghost<Seq<u8>>,
        Ghost(a): Ghost<nat>,
        Ghost(half): Ghost<nat>,
    )
        requires
            chunk_counter >= old(self).initial_chunk_counter,
            ({
                let j = (chunk_counter - old(self).initial_chunk_counter) as nat;
                let c0 = old(self).initial_chunk_counter as nat;
                &&& stack_ok(cv_stack_items(old(self).cv_stack), old(self).key@, x, c0, old(self).chunk_state.flags, a, j)
                &&& is_pow2(half)
                &&& half >= 1
                &&& j % half == 0
                &&& sub@.len() == 2048 * half
                &&& x.len() == 1024 * j + sub@.len()
                &&& x.subrange(1024int * j, x.len() as int) == sub@
                &&& 1024 * (c0 + j) + sub@.len() < 0x1_0000_0000_0000_0000
            }),
        ensures
            stack_ok(
                cv_stack_items(final(self).cv_stack),
                old(self).key@,
                x,
                old(self).initial_chunk_counter as nat,
                old(self).chunk_state.flags,
                (chunk_counter - old(self).initial_chunk_counter + half) as nat,
                (chunk_counter - old(self).initial_chunk_counter + 2 * half) as nat,
            ),
            final(self).key == old(self).key,
            final(self).chunk_state == old(self).chunk_state,
            final(self).initial_chunk_counter == old(self).initial_chunk_counter,
            final(self).input == old(self).input,
            final(self).stack_base == old(self).stack_base,
    {
        let ghost j = (chunk_counter - self.initial_chunk_counter) as nat;
        let ghost c0 = self.initial_chunk_counter as nat;
        let ghost flags = self.chunk_state.flags;
        proof {
            crate::stack::lemma_split_pow2(self.key@, sub@, (c0 + j) as nat, flags, half);
            crate::tree::lemma_exp2_pos(0);
        }
        let pair = crate::compress_subtree_to_parent_node(
            sub,
            &self.key,
            chunk_counter,
            self.chunk_state.flags,
            self.chunk_state.platform,
        );
        let (left_cv, right_cv) = crate::split_cv_pair(&pair);
        proof {
            assert(x.subrange(1024int * j, 1024int * (j + half)) =~= sub@.subrange(0, 1024int * half));
            assert(x.subrange(1024int * (j + half), 1024int * (j + half + half)) =~= sub@.subrange(
                1024int * half,
                sub@.len() as int,
            ));
            let lcv = crate::model::subtree_cv(self.key@, sub@.subrange(0, 1024int * half), c0 + j, flags);
            let rcv = crate::model::subtree_cv(
                self.key@,
                sub@.subrange(1024int * half, sub@.len() as int),
                c0 + j + half,
                flags,
            );
            assert((1024 * half) / 1024 == half);
            assert(pair@ == bytes_of(lcv) + bytes_of(rcv));
            assert(bytes_of(lcv).len() == 32);
            assert(left_cv@ =~= bytes_of(lcv));
            assert(right_cv@ =~= bytes_of(rcv));
            assert(crate::stack::block_cv(self.key@, x, c0, flags, j, half) == lcv);
            assert(crate::stack::block_cv(self.key@, x, c0, flags, j + half, half) == rcv);
            assert(half * 2 == 2 * half);
        }
        self.push_cv(&left_cv, chunk_counter, Ghost(x), Ghost(a), Ghost(half));
        let half_chunks = (sub.len() / (2 * CHUNK_LEN)) as u64;
        proof {
            assert(half_chunks == half) by {
                assert(sub@.len() / 2048 == half);
            }
            vstd::arithmetic::div_mod::lemma_mod_adds(j as int, half as int, half as int);
            vstd::arithmetic::div_mod::lemma_mod_self_0(half as int);
            assert((j + half) % half == 0);
        }
        self.push_cv(&right_cv, chunk_counter + half_chunks, Ghost(x), Ghost(j), Ghost(half));
    }


    /// The hash state's limits on the bytes it may take in: fewer than
    /// 2^64 bytes of output position, and, for a subtree starting at chunk
    /// `c0 > 0`, no more than the largest subtree that can start there.
    pub open spec fn fits(self, total_len: nat) -> bool {
        &&& 1024 * self.offset_chunks() + total_len < 0x1_0000_0000_0000_0000
        &&& self.offset_chunks() > 0 ==> total_len <= 1024 * lowbit(self.offset_chunks())
    }

    /// Finish the partial chunk in the chunk state with the front of
    /// `input`. If input remains after that chunk, it is not the root:
    /// push its chaining value and start the next chunk. Returns the number
    /// of bytes taken.
    fn fill_chunk(&mut self, input: &[u8], Ghost(total): Ghost<Seq<u8>>) -> (n: usize)
        requires
            old(self).wf(),
            old(self).fits(total.len()),
            old(self).input@ + input@ == total,
            old(self).chunk_state.input@.len() > 0,
        ensures
            n <= input@.len(),
            final(self).input@ == old(self).input@ + input@.subrange(0, n as int),
            n == input@.len() ==> final(self).wf(),
            n < input@.len() ==> final(self).at_boundary(total),
            final(self).key == old(self).key,
            final(self).initial_chunk_counter == old(self).initial_chunk_counter,
            final(self).chunk_state.flags == old(self).chunk_state.flags,
    {
        let ghost c0 = self.initial_chunk_counter as nat;
        let ghost flags = self.chunk_state.flags;
        let want = CHUNK_LEN - self.chunk_state.len();
        let take = if want < input.len() {
            want
        } else {
            input.len()
        };
        let (head, _) = input.split_at(take);
        let ghost j = self.done();
        let ghost a = self.stack_base@;
        let ghost x1 = self.input@ + head@;
        proof {
            assert(x1.subrange(0, self.input@.len() as int) =~= self.input@);
            lemma_stack_extend(cv_stack_items(self.cv_stack), self.key@, self.input@, x1, c0, flags, a, j);
        }
        self.chunk_state.update(head);
        self.input = Ghost(x1);
        proof {
            assert(x1.subrange(1024int * j, x1.len() as int) =~= self.chunk_state.input@);
        }
        if take < input.len() {
            // The chunk is full and more input follows, so it is not the
            // root: finalize it and push its chaining value.
            let chunk_cv = self.chunk_state.output().chaining_value();
            let counter = self.chunk_state.chunk_counter;
            proof {
                assert(x1.subrange(1024int * j, 1024int * (j + 1)) =~= self.chunk_state.input@);
            }
            self.push_cv(&chunk_cv, counter, Ghost(x1), Ghost(a), Ghost(1));
            self.chunk_state = ChunkState::new(&self.key, counter + 1, self.chunk_state.flags, self.chunk_state.platform);
            proof {
                self.stack_base@ = j;
                assert(total.subrange(0, x1.len() as int) =~= x1);
            }
        }
        take
    }

    /// Take in the last bytes of an update, one chunk or less, when the
    /// chunk state is empty; the stack can no longer become the root, so
    /// merge it fully.
    fn absorb_tail(&mut self, input: &[u8], Ghost(total): Ghost<Seq<u8>>)
        requires
            old(self).at_boundary(total),
            old(self).input@ + input@ == total,
            0 < input@.len() <= CHUNK_LEN,
        ensures
            final(self).wf(),
            final(self).input@ == total,
            final(self).key == old(self).key,
            final(self).initial_chunk_counter == old(self).initial_chunk_counter,
            final(self).chunk_state.flags == old(self).chunk_state.flags,
    {
        let ghost c0 = self.initial_chunk_counter as nat;
        let ghost flags = self.chunk_state.flags;
        let ghost j = self.done();
        let ghost x = self.input@;
        proof {
            assert(total.subrange(0, x.len() as int) =~= x);
            lemma_stack_extend(cv_stack_items(self.cv_stack), self.key@, x, total, c0, flags, self.stack_base@, j);
        }
        self.chunk_state.update(input);
        self.input = Ghost(total);
        self.merge_cv_stack(self.chunk_state.chunk_counter, Ghost(total), Ghost(self.stack_base@));
        proof {
            crate::stack::lemma_exact_to_ok(cv_stack_items(self.cv_stack), self.key@, total, c0, flags, j);
            if j > 0 {
                self.stack_base@ = (j - lowbit(j)) as nat;
                crate::stack::lemma_lowbit_pos(j);
            } else {
                self.stack_base@ = 0;
            }
            assert(total.subrange(1024int * j, total.len() as int) =~= self.chunk_state.input@);
        }
    }

    /// Add input bytes to the hash state.
    fn update_inner(&mut self, input: &[u8])
        requires
            old(self).wf(),
            old(self).fits(old(self).hashed().len() + input@.len()),
        ensures
            final(self).wf(),
            final(self).hashed() == old(self).hashed() + input@,
            final(self).key_words() == old(self).key_words(),
            final(self).mode_flags() == old(self).mode_flags(),
            final(self).offset_chunks() == old(self).offset_chunks(),
    {
        let ghost total = self.input@ + input@;
        let mut input = input;
        // If some bytes of a chunk are already in the chunk state, finish
        // that chunk first.
        if self.chunk_state.len() > 0 {
            let n = self.fill_chunk(input, Ghost(total));
            if n == input.len() {
                proof {
                    assert(input@.subrange(0, n as int) =~= input@);
                }
                return;
            }
            let (_, rest) = input.split_at(n);
            proof {
                assert(self.input@ + rest@ =~= total);
            }
            input = rest;
        } else {
            proof {
                assert(total.subrange(0, self.input@.len() as int) =~= self.input@);
                assert(self.chunk_state.input@ =~= Seq::<u8>::empty());
            }
        }
        // Hash whole subtrees while more than one chunk remains.
        while input.len() > CHUNK_LEN
            invariant
                self.at_boundary(total),
                self.input@ + input@ == total,
                input@.len() == 0 && self.done() > 0 ==> self.stack_base@ > 0,
                self.key_words() == old(self).key_words(),
                self.mode_flags() == old(self).mode_flags(),
                self.offset_chunks() == old(self).offset_chunks(),
            decreases input@.len(),
        {
            let n = self.absorb_subtree(input, Ghost(total));
            let (_, rest) = input.split_at(n);
            proof {
                assert(self.input@ + rest@ =~= total);
            }
            input = rest;
        }
        // What remains is one chunk or less.
        if input.len() > 0 {
            self.absorb_tail(input, Ghost(total));
        } else {
            proof {
                let j = self.done();
                assert(self.input@ =~= total);
                assert(total.subrange(1024int * j, total.len() as int) =~= self.chunk_state.input@);
            }
        }
    }

    /// Add input bytes to the hash state. You can call this any number of
    /// times. Returns the hash state itself, for chaining.
    pub fn update(&mut self, input: &[u8]) -> (r: &mut Self)
        requires
            old(self).wf(),
            old(self).fits(old(self).hashed().len() + input@.len()),
        ensures
            r.wf(),
            r.hashed() == old(self).hashed() + input@,
            r.key_words() == old(self).key_words(),
            r.mode_flags() == old(self).mode_flags(),
            r.offset_chunks() == old(self).offset_chunks(),
            r.stack_len() <= 54,
            r.buffered() > 0 ==> r.stack_len() == popcount(((r.hashed().len() - r.buffered()) / 1024) as nat),
            *final(self) == *final(r),
    {
        self.update_inner(input);
        proof {
            self.lemma_stack_merged();
        }
        self
    }

    /// The number of input bytes hashed so far.
    pub fn count(&self) -> (n: u64)
        requires
            self.wf(),
        ensures
            n == self.hashed().len(),
    {
        proof {
            assert(self.chunk_state.chunk_counter == self.initial_chunk_counter + self.done());
            assert(1024 * self.chunk_state.chunk_counter <= 1024 * self.initial_chunk_counter + self.input@.len());
            assert(self.initial_chunk_counter * 1024 < 0x1_0000_0000_0000_0000);
            assert(self.chunk_state.chunk_counter * 1024 < 0x1_0000_0000_0000_0000);
            assert(self.chunk_state.chunk_counter * 1024 - self.initial_chunk_counter * 1024 + self.chunk_state.input@.len()
                == self.input@.len());
        }
        let input_offset = self.initial_chunk_counter * CHUNK_LEN as u64;
        let chunk_counter = self.chunk_state.chunk_counter * CHUNK_LEN as u64;
        chunk_counter - input_offset + self.chunk_state.len() as u64
    }

    /// The root node of the tree over everything hashed so far, before the
    /// choice between chaining value and root output.
    pub(crate) fn final_output(&self) -> (o: Output)
        requires
            self.wf(),
        ensures
            o.model() == subtree_output(self.key_words(), self.hashed(), self.offset_chunks(), self.mode_flags()),
    {
        let ghost c0 = self.initial_chunk_counter as nat;
        let ghost flags = self.chunk_state.flags;
        let ghost x = self.input@;
        let ghost j = self.done();
        let ghost a = self.stack_base@;
        let ghost s = cv_stack_items(self.cv_stack);
        let ghost key = self.key@;
        // If the current chunk is the only chunk, it is also the root.
        if cv_stack_len(&self.cv_stack) == 0 {
            proof {
                assert(j == 0);
                assert(x =~= self.chunk_state.input@);
            }
            return self.chunk_state.output();
        }
        // Otherwise fold the stack onto the last node: the bytes in the chunk
        // state if there are any (the stack is then fully merged), else the
        // parent of the top two values of the stack.
        let mut output: Output;
        let mut num_cvs_remaining = cv_stack_len(&self.cv_stack);
        let ghost mut cvs: Seq<Seq<u32>>;
        proof {
            assert(j > 0);
            crate::stack::lemma_decomp_len(a);
            crate::stack::lemma_decomp_len(j);
        }
        if self.chunk_state.len() > 0 {
            output = self.chunk_state.output();
            proof {
                crate::stack::lemma_stack_no_carry(s, key, x, c0, flags, a, j);
                crate::stack::lemma_lowbit_pos(j);
                assert(x.subrange(1024int * j, x.len() as int) =~= self.chunk_state.input@);
                crate::stack::lemma_fold_decomp(key, x, c0, flags, j);
                cvs = decomp_cvs(key, x, c0, flags, j);
                assert(cvs.subrange(0, num_cvs_remaining as int) =~= cvs);
                assert(output.model() == subtree_output(
                    key,
                    x.subrange(1024int * j, x.len() as int),
                    c0 + j,
                    flags,
                ));
            }
        } else {
            let left = cv_stack_get(&self.cv_stack, num_cvs_remaining - 2);
            let right = cv_stack_get(&self.cv_stack, num_cvs_remaining - 1);
            output = crate::parent_node_output(
                &left,
                &right,
                &self.key,
                self.chunk_state.flags,
                self.chunk_state.platform,
            );
            num_cvs_remaining -= 2;
            proof {
                crate::stack::lemma_top_pair(s, key, x, c0, flags, a, j);
                cvs = decomp_cvs(key, x, c0, flags, (a - lowbit(a)) as nat);
                assert(cvs.subrange(0, num_cvs_remaining as int) =~= cvs);
            }
        }
        self.fold_onto(output, num_cvs_remaining, Ghost(cvs), Ghost(subtree_output(key, x, c0, flags)))
    }

    /// Fold the bottom `num_cvs_remaining` values of the stack onto
    /// `output`, each becoming the left child of a parent over what is to
    /// its right.
    fn fold_onto(
        &self,
        output: Output,
        num_cvs_remaining: usize,
        Ghost(cvs): Ghost<Seq<Seq<u32>>>,
        Ghost(target): Ghost<crate::model::OutputModel>,
    ) -> (o: Output)
        requires
            num_cvs_remaining <= cvs.len(),
            cvs.len() <= cv_stack_items(self.cv_stack).len(),
            forall|i: int| 0 <= i < cvs.len() ==> #[trigger] cv_stack_items(self.cv_stack)[i]@ == bytes_of(cvs[i]),
            fold_stack(cvs.subrange(0, num_cvs_remaining as int), output.model(), self.key@, self.chunk_state.flags)
                == target,
        ensures
            o.model() == target,
    {
        let ghost s = cv_stack_items(self.cv_stack);
        let ghost key = self.key@;
        let ghost flags = self.chunk_state.flags;
        let mut output = output;
        let mut num_cvs_remaining = num_cvs_remaining;
        while num_cvs_remaining > 0
            invariant
                num_cvs_remaining <= cvs.len(),
                cvs.len() <= s.len(),
                s == cv_stack_items(self.cv_stack),
                key == self.key@,
                flags == self.chunk_state.flags,
                forall|i: int| 0 <= i < cvs.len() ==> #[trigger] s[i]@ == bytes_of(cvs[i]),
                fold_stack(cvs.subrange(0, num_cvs_remaining as int), output.model(), key, flags) == target,
            decreases num_cvs_remaining,
        {
            let cv = cv_stack_get(&self.cv_stack, num_cvs_remaining - 1);
            let out_cv = output.chaining_value();
            let ghost prev = output.model();
            output = crate::parent_node_output(
                &cv,
                &out_cv,
                &self.key,
                self.chunk_state.flags,
                self.chunk_state.platform,
            );
            proof {
                let r = num_cvs_remaining as int;
                crate::platform::lemma_words_bytes_words(cvs[r - 1]);
                crate::platform::lemma_words_bytes_words(crate::model::output_cv(prev));
                assert(cvs.subrange(0, r).drop_last() =~= cvs.subrange(0, r - 1));
            }
            num_cvs_remaining -= 1;
        }
        proof {
            assert(cvs.subrange(0, 0) =~= Seq::<Seq<u32>>::empty());
        }
        output
    }


    /// Finalize the hash state and return the `Hash` of the input. This does
    /// not change the state: calling it twice gives the same result, and
    /// more input can be added after it. A hash state that starts after
    /// chunk 0 has no root of its own until it holds more than one chunk.
    pub fn finalize(&self) -> (h: crate::Hash)
        requires
            self.wf(),
            self.offset_chunks() == 0 || self.hashed().len() > CHUNK_LEN,
        ensures
            h@ == root_hash_bytes(
                subtree_output(self.key_words(), self.hashed(), self.offset_chunks(), self.mode_flags()),
            ),
    {
        let o = self.final_output();
        proof {
            self.lemma_root_counter();
        }
        o.root_hash()
    }

    /// Finalize the hash state and return an `OutputReader`, which can
    /// supply any number of output bytes. This does not change the state.
    pub fn finalize_xof(&self) -> (r: OutputReader)
        requires
            self.wf(),
            self.offset_chunks() == 0 || self.hashed().len() > CHUNK_LEN,
        ensures
            r.node() == subtree_output(self.key_words(), self.hashed(), self.offset_chunks(), self.mode_flags()),
            r.pos() == 0,
    {
        let o = self.final_output();
        proof {
            self.lemma_root_counter();
        }
        OutputReader::new(o)
    }

    /// The root of the tree over what was hashed has counter 0: it is a
    /// parent, or the first chunk of the input.
    proof fn lemma_root_counter(&self)
        requires
            self.offset_chunks() == 0 || self.hashed().len() > CHUNK_LEN,
        ensures
            subtree_output(self.key_words(), self.hashed(), self.offset_chunks(), self.mode_flags()).counter == 0,
    {
        if self.hashed().len() > CHUNK_LEN {
            crate::tree::lemma_subtree_split(self.key@, self.input@, self.initial_chunk_counter as nat, self.chunk_state.flags);
        } else {
            crate::model::lemma_subtree_counter_zero(self.key@, self.input@, self.chunk_state.flags);
        }
    }

    /// Start the (still empty) input at chunk `counter`.
    pub(crate) fn set_offset_chunks(&mut self, counter: u64)
        requires
            old(self).wf(),
            old(self).hashed().len() == 0,
            1024 * counter < 0x1_0000_0000_0000_0000,
        ensures
            final(self).wf(),
            final(self).offset_chunks() == counter,
            final(self).hashed() == Seq::<u8>::empty(),
            final(self).key_words() == old(self).key_words(),
            final(self).mode_flags() == old(self).mode_flags(),
    {
        proof {
            assert(self.chunk_state.input@.len() == 0);
        }
        self.chunk_state.chunk_counter = counter;
        self.initial_chunk_counter = counter;
        proof {
            assert(self.input@ =~= Seq::<u8>::empty());
            assert(self.input@.subrange(0, 0) =~= self.chunk_state.input@);
        }
    }
}

} // verus!

verus! {

impl Hasher {
    /// The bytes of the chunk in progress, not yet part of the tree.
    pub closed spec fn buffered(self) -> nat {
        self.chunk_state.input@.len()
    }

    /// The hashed bytes are whole chunks followed by the chunk in progress.
    pub proof fn lemma_buffered(self)
        requires
            self.wf(),
        ensures
            self.buffered() <= self.hashed().len(),
            (self.hashed().len() - self.buffered()) % 1024 == 0,
    {
        assert((1024 * self.done()) % 1024 == 0) by (nonlinear_arith);
    }

    /// The key words.
    pub(crate) fn key_array(&self) -> (k: &[u32; 8])
        ensures
            k@ == self.key_words(),
    {
        &self.key
    }

    /// The mode flags.
    pub(crate) fn flags_u8(&self) -> (f: u8)
        ensures
            f == self.mode_flags(),
    {
        self.chunk_state.flags
    }

    /// The backend this hash state computes with.
    pub(crate) fn platform_value(&self) -> (p: Platform)
        ensures
            p == self.chunk_state.platform,
    {
        self.chunk_state.platform
    }

    /// Take in `y`, `chunk_count` whole chunks that start at a multiple of
    /// `chunk_count`, given as the chaining values of `n` equal consecutive
    /// blocks of them (`n > 2` divides `chunk_count`, a power of two), as a
    /// shader computes them: condense those to the two children of the
    /// subtree over `y` and push both.
    pub(crate) fn update_from_parents<J: crate::join::Join>(
        &mut self,
        chunk_count: u64,
        parents: &[u8],
        Ghost(y): Ghost<Seq<u8>>,
    )
        requires
            old(self).wf(),
            old(self).buffered() == 0,
            is_pow2(chunk_count as nat),
            (old(self).offset_chunks() + old(self).hashed().len() / 1024) % (chunk_count as nat) == 0,
            old(self).fits((old(self).hashed().len() + 1024 * chunk_count) as nat),
            parents@.len() % 32 == 0,
            parents@.len() / 32 > 2,
            (chunk_count as nat) % (parents@.len() / 32) == 0,
            crate::gpu::shader_parents(*old(self), y, chunk_count as nat, parents@),
        ensures
            final(self).wf(),
            final(self).buffered() == 0,
            final(self).hashed() == old(self).hashed() + y,
            final(self).key_words() == old(self).key_words(),
            final(self).mode_flags() == old(self).mode_flags(),
            final(self).offset_chunks() == old(self).offset_chunks(),
    {
        let ghost c0 = self.initial_chunk_counter as nat;
        let ghost j = self.done();
        let ghost x = self.input@;
        let ghost a = self.stack_base@;
        let ghost flags = self.chunk_state.flags;
        let ghost key = self.key@;
        let ghost cc = chunk_count as nat;
        let ghost n = parents@.len() / 32;
        let ghost sz = cc / n;
        let ghost half = cc / 2;
        let ghost w = crate::gpu::block_cvs(key, y, c0 + j, flags, n, sz);
        proof {
            assert(x.len() / 1024 == j) by {
                assert(x.len() == 1024 * j);
            }
        }
        let ghost p = crate::gpu::lemma_shader_pair(key, y, c0 + j, flags, cc, n);
        let pair = crate::gpu::compress_parents_to_parent_node::<J>(
            parents,
            &self.key,
            self.chunk_state.flags,
            self.chunk_state.platform,
            Ghost(w),
            Ghost(p),
        );
        let (left_cv, right_cv) = crate::split_cv_pair(&pair);
        proof {
            assert(left_cv@ =~= bytes_of(
                crate::model::subtree_cv(key, y.subrange(0, 1024int * half), c0 + j, flags),
            ));
            assert(right_cv@ =~= bytes_of(
                crate::model::subtree_cv(key, y.subrange(1024int * half, 2048int * half), c0 + j + half, flags),
            ));
        }
        self.push_halves(chunk_count, &left_cv, &right_cv, Ghost(y));
    }

    /// Push the chaining values of the two halves of `y`, `chunk_count`
    /// whole chunks that start at a multiple of `chunk_count`.
    fn push_halves(&mut self, chunk_count: u64, left_cv: &[u8; 32], right_cv: &[u8; 32], Ghost(y): Ghost<Seq<u8>>)
        requires
            old(self).wf(),
            old(self).buffered() == 0,
            is_pow2(chunk_count as nat),
            chunk_count >= 2,
            (old(self).offset_chunks() + old(self).hashed().len() / 1024) % (chunk_count as nat) == 0,
            old(self).fits((old(self).hashed().len() + 1024 * chunk_count) as nat),
            y.len() == 1024 * chunk_count,
            left_cv@ == bytes_of(
                crate::model::subtree_cv(
                    old(self).key_words(),
                    y.subrange(0, 512int * chunk_count),
                    old(self).offset_chunks() + old(self).hashed().len() / 1024,
                    old(self).mode_flags(),
                ),
            ),
            right_cv@ == bytes_of(
                crate::model::subtree_cv(
                    old(self).key_words(),
                    y.subrange(512int * chunk_count, 1024int * chunk_count),
                    (old(self).offset_chunks() + old(self).hashed().len() / 1024 + chunk_count / 2) as nat,
                    old(self).mode_flags(),
                ),
            ),
        ensures
            final(self).wf(),
            final(self).buffered() == 0,
            final(self).hashed() == old(self).hashed() + y,
            final(self).key_words() == old(self).key_words(),
            final(self).mode_flags() == old(self).mode_flags(),
            final(self).offset_chunks() == old(self).offset_chunks(),
    {
        let ghost c0 = self.initial_chunk_counter as nat;
        let ghost j = self.done();
        let ghost x = self.input@;
        let ghost a = self.stack_base@;
        let ghost flags = self.chunk_state.flags;
        let ghost key = self.key@;
        let ghost cc = chunk_count as nat;
        let ghost half = cc / 2;
        let ghost x2 = x + y;
        proof {
            assert(x.len() / 1024 == j) by {
                assert(x.len() == 1024 * j);
            }
            lemma_half_aligned(c0, j, cc);
            assert(512int * chunk_count == 1024int * half);
            assert(1024int * chunk_count == 2048int * half);
            assert(x2.subrange(0, x.len() as int) =~= x);
            lemma_stack_extend(cv_stack_items(self.cv_stack), key, x, x2, c0, flags, a, j);
            assert(x2.subrange(1024int * j, 1024int * (j + half)) =~= y.subrange(0, 1024int * half));
            assert(x2.subrange(1024int * (j + half), 1024int * (j + half + half)) =~= y.subrange(
                1024int * half,
                2048int * half,
            ));
        }
        let counter = self.chunk_state.chunk_counter;
        self.push_cv(left_cv, counter, Ghost(x2), Ghost(a), Ghost(half));
        let half_chunks = chunk_count / 2;
        proof {
            vstd::arithmetic::div_mod::lemma_mod_adds(j as int, half as int, half as int);
            vstd::arithmetic::div_mod::lemma_mod_self_0(half as int);
            assert((j + half) % half == 0);
        }
        self.push_cv(right_cv, counter + half_chunks, Ghost(x2), Ghost(j), Ghost(half));
        self.chunk_state.chunk_counter = counter + chunk_count;
        self.input = Ghost(x2);
        proof {
            self.stack_base@ = j + half;
            assert(x2.subrange(1024int * (j + cc), x2.len() as int) =~= self.chunk_state.input@);
        }
    }
}

} // verus!

verus! {

/// Where `cc` chunks start at a multiple of `cc` and fit the hash state,
/// each half of them starts at a multiple of its own size, relative to the
/// first chunk, and is far from the stack's limits.
proof fn lemma_half_aligned(c0: nat, j: nat, cc: nat)
    requires
        is_pow2(cc),
        cc >= 2,
        (c0 + j) % cc == 0,
        1024 * c0 + 1024 * (j + cc) < 0x1_0000_0000_0000_0000,
        c0 > 0 ==> 1024 * (j + cc) <= 1024 * lowbit(c0),
    ensures
        is_pow2(cc / 2),
        cc == 2 * (cc / 2),
        j % (cc / 2) == 0,
        j + cc < 0x40_0000_0000_0000,
{
    let half = cc / 2;
    assert(is_pow2(2)) by {
        reveal_with_fuel(is_pow2, 2);
    }
    crate::stack::lemma_pow2_div(cc, 2);
    assert((c0 + j) % half == 0) by (nonlinear_arith)
        requires
            (c0 + j) % cc == 0,
            cc == 2 * half,
            half >= 1,
    {
        vstd::arithmetic::div_mod::lemma_fundamental_div_mod((c0 + j) as int, cc as int);
        let q = (c0 + j) / cc;
        assert(c0 + j == half * (2 * q));
        vstd::arithmetic::div_mod::lemma_mod_multiples_basic(2 * q as int, half as int);
    }
    if c0 > 0 {
        crate::stack::lemma_lowbit_pos(c0);
    }
    crate::stack::lemma_rel_aligned(c0, j, half);
}

} // verus!

verus! {

impl Hasher {
    /// The number of chaining values on the hash state's stack.
    pub closed spec fn stack_len(self) -> nat {
        cv_stack_items(self.cv_stack).len()
    }

    /// The stack never holds more than 54 values, so no push overflows it;
    /// and while a chunk is in progress it is fully merged: one value per
    /// set bit of the number of whole chunks hashed.
    pub proof fn lemma_stack_merged(self)
        requires
            self.wf(),
        ensures
            self.stack_len() <= 54,
            self.buffered() > 0 ==> self.stack_len() == popcount(
                ((self.hashed().len() - self.buffered()) / 1024) as nat,
            ),
    {
        let j = self.done();
        let a = self.stack_base@;
        let s = cv_stack_items(self.cv_stack);
        let x = self.input@;
        let c0 = self.initial_chunk_counter as nat;
        let flags = self.chunk_state.flags;
        assert((x.len() - self.chunk_state.input@.len()) / 1024 == j) by {
            assert(x.len() - self.chunk_state.input@.len() == 1024 * j);
        }
        if j > 0 {
            crate::stack::lemma_exp2_values();
            crate::stack::lemma_decomp_len(a);
            assert(j < crate::tree::exp2(54));
            lemma_popcount_below(a, 54);
        }
        if self.chunk_state.input@.len() > 0 {
            crate::stack::lemma_stack_no_carry(s, self.key@, x, c0, flags, a, j);
        }
    }
}

/// A number below `2^k - 1` has fewer than `k` set bits.
proof fn lemma_popcount_below(n: nat, k: nat)
    requires
        n + 1 < crate::tree::exp2(k),
    ensures
        popcount(n) < k,
    decreases k,
{
    if k == 0 {
        assert(crate::tree::exp2(0) == 1);
    } else {
        let k1 = (k - 1) as nat;
        assert(crate::tree::exp2(k) == 2 * crate::tree::exp2(k1));
        if n % 2 == 1 {
            lemma_popcount_below(n / 2, k1);
        } else if n > 0 {
            crate::stack::lemma_popcount_bound(n / 2, k1);
        }
    }
}

} // verus!

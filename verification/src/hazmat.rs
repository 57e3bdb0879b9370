//! Low-level tools for hashing the BLAKE3 tree in pieces: the chaining
//! values of subtrees that start anywhere in the input, and the parent nodes
//! that merge them.
//!
//! A subtree starting at chunk `n > 0` holds at most `2^(trailing zeros of
//! n)` chunks; the merging functions cannot check the shape of the
//! subtrees they are given.

use crate::hasher::Hasher;
use crate::model::{parent_output, root_hash_bytes, subtree_cv, subtree_output};
use crate::platform::{bytes_of, words_of, Platform};
use crate::stack::lowbit;
use crate::{Output, OutputReader, CHUNK_LEN, DERIVE_KEY_CONTEXT, DERIVE_KEY_MATERIAL, IV, KEYED_HASH, KEY_LEN};
use vstd::prelude::*;
use vstd::string::StringSliceAdditionalSpecFns;

verus! {

/// "Chaining value" is the academic term for a non-root or non-final hash.
pub type ChainingValue = [u8; 32];

/// The mode of a subtree: plain hashing, keyed hashing, or key derivation
/// from a context key.
#[derive(Copy, Clone, Debug)]
pub enum Mode<'a> {
    Hash,
    KeyedHash(&'a [u8; KEY_LEN]),
    DeriveKeyMaterial(&'a [u8; KEY_LEN]),
}

/// The key words of a mode.
pub open spec fn mode_key(mode: Mode) -> Seq<u32> {
    match mode {
        Mode::Hash => IV@,
        Mode::KeyedHash(key) => words_of(key@),
        Mode::DeriveKeyMaterial(cx_key) => words_of(cx_key@),
    }
}

/// The flags of a mode.
pub open spec fn mode_flags(mode: Mode) -> u8 {
    match mode {
        Mode::Hash => 0,
        Mode::KeyedHash(_) => KEYED_HASH,
        Mode::DeriveKeyMaterial(_) => DERIVE_KEY_MATERIAL,
    }
}

impl<'a> Mode<'a> {
    fn key_words(&self) -> (k: [u32; 8])
        ensures
            k@ == mode_key(*self),
    {
        match self {
            Mode::Hash => IV,
            Mode::KeyedHash(key) => crate::platform::words_from_le_bytes_32(key),
            Mode::DeriveKeyMaterial(cx_key) => crate::platform::words_from_le_bytes_32(cx_key),
        }
    }

    fn flags_byte(&self) -> (f: u8)
        ensures
            f == mode_flags(*self),
    {
        match self {
            Mode::Hash => 0,
            Mode::KeyedHash(_) => KEYED_HASH,
            Mode::DeriveKeyMaterial(_) => DERIVE_KEY_MATERIAL,
        }
    }
}

/// The maximum number of bytes in a subtree starting at chunk `counter`:
/// one chunk times `2^(trailing zeros of counter)`.
pub fn max_subtree_len(counter: u64) -> (n: u64)
    requires
        counter != 0,
        1024 * lowbit(counter as nat) < 0x1_0000_0000_0000_0000,
    ensures
        n == 1024 * lowbit(counter as nat),
{
    // Count the trailing zero bits as a power of two.
    let mut rest = counter;
    let mut p: u64 = 1;
    while rest % 2 == 0
        invariant
            rest > 0,
            counter > 0,
            p * lowbit(rest as nat) == lowbit(counter as nat),
            p <= counter,
        decreases rest,
    {
        proof {
            assert(lowbit(rest as nat) == 2 * lowbit((rest / 2) as nat));
            crate::stack::lemma_lowbit_pos(counter as nat);
            crate::stack::lemma_lowbit_pos((rest / 2) as nat);
            assert(p * (2 * lowbit((rest / 2) as nat)) == (2 * p) * lowbit((rest / 2) as nat))
                by (nonlinear_arith);
            assert(2 * p <= counter) by (nonlinear_arith)
                requires
                    (2 * p) * lowbit((rest / 2) as nat) == lowbit(counter as nat),
                    lowbit((rest / 2) as nat) >= 1,
                    lowbit(counter as nat) <= counter,
            ;
        }
        rest = rest / 2;
        p = p * 2;
    }
    proof {
        assert(lowbit(rest as nat) == 1);
        assert(p == lowbit(counter as nat));
        assert(p * 1024 < 0x1_0000_0000_0000_0000);
    }
    p * CHUNK_LEN as u64
}

/// The parent node over two subtree chaining values in a mode.
fn merge_subtrees_inner(left_child: &ChainingValue, right_child: &ChainingValue, mode: Mode) -> (o: Output)
    ensures
        o.model() == parent_output(words_of(left_child@), words_of(right_child@), mode_key(mode), mode_flags(mode)),
{
    crate::parent_node_output(left_child, right_child, &mode.key_words(), mode.flags_byte(), Platform::portable())
}

/// Compute a non-root chaining value. It is never correct to use this
/// function's return value as a root hash.
pub fn merge_subtrees_non_root(left_child: &ChainingValue, right_child: &ChainingValue, mode: Mode) -> (cv:
    ChainingValue)
    ensures
        cv@ == bytes_of(
            crate::tree::parent_cv(words_of(left_child@), words_of(right_child@), mode_key(mode), mode_flags(mode)),
        ),
{
    merge_subtrees_inner(left_child, right_child, mode).chaining_value()
}

/// Compute the root hash, as `Hasher::finalize` does.
pub fn merge_subtrees_root(left_child: &ChainingValue, right_child: &ChainingValue, mode: Mode) -> (h:
    crate::Hash)
    ensures
        h@ == root_hash_bytes(
            parent_output(words_of(left_child@), words_of(right_child@), mode_key(mode), mode_flags(mode)),
        ),
{
    merge_subtrees_inner(left_child, right_child, mode).root_hash()
}

/// Return a root `OutputReader`, as `Hasher::finalize_xof` does.
pub fn merge_subtrees_xof(left_child: &ChainingValue, right_child: &ChainingValue, mode: Mode) -> (r:
    OutputReader)
    ensures
        r.node() == parent_output(words_of(left_child@), words_of(right_child@), mode_key(mode), mode_flags(mode)),
        r.pos() == 0,
{
    OutputReader::new(merge_subtrees_inner(left_child, right_child, mode))
}

/// The key derived from a context string, as the first step of
/// `derive_key` and `Hasher::new_derive_key`.
pub fn context_key(context: &str) -> (k: [u8; KEY_LEN])
    ensures
        k@ == root_hash_bytes(subtree_output(IV@, context.spec_bytes(), 0, DERIVE_KEY_CONTEXT)),
{
    crate::hash_all_at_once(context.as_bytes(), &IV, DERIVE_KEY_CONTEXT).root_hash().0
}

/// Extra methods of `Hasher` for hashing a subtree of a larger input.
pub trait HasherExt: Sized {
    /// The hash state is well formed.
    spec fn ext_wf(&self) -> bool;

    /// The key words the hash state started from.
    spec fn ext_key_words(&self) -> Seq<u32>;

    /// The mode flags of the hash state.
    spec fn ext_mode_flags(&self) -> u8;

    /// Every byte hashed so far.
    spec fn ext_hashed(&self) -> Seq<u8>;

    /// The number of the chunk the hashed input starts at.
    spec fn ext_offset_chunks(&self) -> nat;

    /// A hash state for key derivation from an already derived context key.
    fn new_from_context_key(context_key: &[u8; KEY_LEN]) -> (h: Self)
        ensures
            h.ext_wf(),
            h.ext_key_words() == words_of(context_key@),
            h.ext_mode_flags() == DERIVE_KEY_MATERIAL,
            h.ext_hashed() == Seq::<u8>::empty(),
            h.ext_offset_chunks() == 0,
    ;

    /// Start the input at byte `offset` of a larger input: a chunk
    /// boundary, before any input has been taken.
    fn set_input_offset(&mut self, offset: u64) -> (r: &mut Self)
        requires
            old(self).ext_wf(),
            old(self).ext_hashed().len() == 0,
            offset % 1024 == 0,
        ensures
            r.ext_wf(),
            r.ext_offset_chunks() == offset / 1024,
            r.ext_hashed() == Seq::<u8>::empty(),
            r.ext_key_words() == old(self).ext_key_words(),
            r.ext_mode_flags() == old(self).ext_mode_flags(),
            *final(self) == *final(r),
    ;

    /// The chaining value of the (non-empty) subtree hashed so far.
    fn finalize_non_root(&self) -> (cv: ChainingValue)
        requires
            self.ext_wf(),
            self.ext_hashed().len() > 0,
        ensures
            cv@ == bytes_of(
                subtree_cv(self.ext_key_words(), self.ext_hashed(), self.ext_offset_chunks(), self.ext_mode_flags()),
            ),
    ;
}

impl HasherExt for Hasher {
    open spec fn ext_wf(&self) -> bool {
        self.wf()
    }

    open spec fn ext_key_words(&self) -> Seq<u32> {
        self.key_words()
    }

    open spec fn ext_mode_flags(&self) -> u8 {
        self.mode_flags()
    }

    open spec fn ext_hashed(&self) -> Seq<u8> {
        self.hashed()
    }

    open spec fn ext_offset_chunks(&self) -> nat {
        self.offset_chunks()
    }

    fn new_from_context_key(context_key: &[u8; KEY_LEN]) -> (h: Hasher) {
        let context_key_words = crate::platform::words_from_le_bytes_32(context_key);
        Hasher::new_internal(&context_key_words, DERIVE_KEY_MATERIAL)
    }

    fn set_input_offset(&mut self, offset: u64) -> (r: &mut Hasher) {
        self.set_offset_chunks(offset / CHUNK_LEN as u64);
        self
    }

    fn finalize_non_root(&self) -> (cv: ChainingValue) {
        self.final_output().chaining_value()
    }
}

} // verus!

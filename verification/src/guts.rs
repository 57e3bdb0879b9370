//! Direct access to the chunks and parent nodes of the BLAKE3 tree, for
//! callers that walk the tree themselves: the chaining values of chunks and
//! of subtrees that start anywhere in the input, and the parent nodes that
//! merge them.

use crate::hasher::Hasher;
use crate::model::{chunk_output, output_cv, parent_output, root_hash_bytes, subtree_cv, subtree_output};
use crate::platform::{bytes_of, words_of, Platform};
use crate::stack::lowbit;
use crate::{Output, OutputReader, CHUNK_LEN, DERIVE_KEY_CONTEXT, DERIVE_KEY_MATERIAL, IV, KEYED_HASH, KEY_LEN};
use vstd::prelude::*;
use vstd::string::StringSliceAdditionalSpecFns;

verus! {

/// The incremental state of one chunk, in the regular hash mode.
#[derive(Clone, Copy)]
pub struct ChunkState(pub(crate) crate::ChunkState);

impl ChunkState {
    /// The chunk state is well formed.
    pub closed spec fn wf(self) -> bool {
        &&& self.0.wf()
        &&& self.0.key@ == IV@
        &&& self.0.flags == 0
    }

    /// The bytes of the chunk taken in so far.
    pub closed spec fn input(self) -> Seq<u8> {
        self.0.input@
    }

    /// The number of the chunk.
    pub closed spec fn counter(self) -> u64 {
        self.0.chunk_counter
    }

    /// An empty chunk with the given number. Only the regular hash mode is
    /// supported.
    pub fn new(chunk_counter: u64) -> (s: Self)
        ensures
            s.wf(),
            s.input() == Seq::<u8>::empty(),
            s.counter() == chunk_counter,
    {
        ChunkState(crate::ChunkState::new(&IV, chunk_counter, 0, Platform::portable()))
    }

    /// The number of bytes taken in so far.
    pub fn len(&self) -> (n: usize)
        requires
            self.wf(),
        ensures
            n == self.input().len(),
    {
        self.0.len()
    }

    /// Take in more bytes of the chunk, which holds at most one chunk.
    /// Returns the chunk state itself, for chaining.
    pub fn update(&mut self, input: &[u8]) -> (r: &mut Self)
        requires
            old(self).wf(),
            old(self).input().len() + input@.len() <= CHUNK_LEN,
        ensures
            r.wf(),
            r.input() == old(self).input() + input@,
            r.counter() == old(self).counter(),
            *final(self) == *final(r),
    {
        self.0.update(input);
        self
    }

    /// The root hash of the chunk if `is_root` (which only the first chunk
    /// can be), else its chaining value.
    pub fn finalize(&self, is_root: bool) -> (h: crate::Hash)
        requires
            self.wf(),
            is_root ==> self.counter() == 0,
        ensures
            is_root ==> h@ == root_hash_bytes(chunk_output(IV@, self.input(), self.counter(), 0)),
            !is_root ==> h@ == bytes_of(output_cv(chunk_output(IV@, self.input(), self.counter(), 0))),
    {
        let output = self.0.output();
        if is_root {
            output.root_hash()
        } else {
            crate::Hash(output.chaining_value())
        }
    }
}

/// The parent node over two chaining values in the regular hash mode: its
/// root hash if `is_root`, else its chaining value.
pub fn parent_cv(left_child: &crate::Hash, right_child: &crate::Hash, is_root: bool) -> (h: crate::Hash)
    ensures
        is_root ==> h@ == root_hash_bytes(parent_output(words_of(left_child@), words_of(right_child@), IV@, 0)),
        !is_root ==> h@ == bytes_of(
            crate::tree::parent_cv(words_of(left_child@), words_of(right_child@), IV@, 0),
        ),
{
    let output = crate::parent_node_output(left_child.as_bytes(), right_child.as_bytes(), &IV, 0, Platform::portable());
    if is_root {
        output.root_hash()
    } else {
        crate::Hash(output.chaining_value())
    }
}

/// The mode of a subtree: plain hashing, keyed hashing, or key derivation
/// from a context key.
#[derive(Copy, Clone, Debug)]
pub enum Mode<'a> {
    Hash,
    KeyedHash(&'a [u8; KEY_LEN]),
    DeriveKeyMaterial(&'a [u8; KEY_LEN]),
}

/// The key words of a mode.
pub open spec fn mode_key(mode: Mode) -> Seq<u32> {
    match mode {
        Mode::Hash => IV@,
        Mode::KeyedHash(key) => words_of(key@),
        Mode::DeriveKeyMaterial(cx_key) => words_of(cx_key@),
    }
}

/// The flags of a mode.
pub open spec fn mode_flags(mode: Mode) -> u8 {
    match mode {
        Mode::Hash => 0,
        Mode::KeyedHash(_) => KEYED_HASH,
        Mode::DeriveKeyMaterial(_) => DERIVE_KEY_MATERIAL,
    }
}

impl<'a> Mode<'a> {
    fn key_words(&self) -> (k: [u32; 8])
        ensures
            k@ == mode_key(*self),
    {
        match self {
            Mode::Hash => IV,
            Mode::KeyedHash(key) => crate::platform::words_from_le_bytes_32(key),
            Mode::DeriveKeyMaterial(cx_key) => crate::platform::words_from_le_bytes_32(cx_key),
        }
    }

    fn flags_byte(&self) -> (f: u8)
        ensures
            f == mode_flags(*self),
    {
        match self {
            Mode::Hash => 0,
            Mode::KeyedHash(_) => KEYED_HASH,
            Mode::DeriveKeyMaterial(_) => DERIVE_KEY_MATERIAL,
        }
    }
}

/// The maximum number of bytes in a subtree starting at chunk `counter`:
/// one chunk times `2^(trailing zeros of counter)`.
pub fn max_subtree_len(counter: u64) -> (n: u64)
    requires
        counter != 0,
        1024 * lowbit(counter as nat) < 0x1_0000_0000_0000_0000,
    ensures
        n == 1024 * lowbit(counter as nat),
{
    crate::hazmat::max_subtree_len(counter)
}

/// The academic term for a "non-root hash" is a "chaining value".
#[derive(Copy, Clone, Debug, Eq)]
pub struct NonRootHash(pub [u8; 32]);

/// This implementation is constant-time.
impl PartialEq for NonRootHash {
    fn eq(&self, other: &NonRootHash) -> (r: bool) {
        crate::outside::ct_eq_32(&self.0, &other.0)
    }
}

impl vstd::std_specs::cmp::PartialEqSpecImpl for NonRootHash {
    open spec fn obeys_eq_spec() -> bool {
        true
    }

    open spec fn eq_spec(&self, other: &NonRootHash) -> bool {
        self.0@ == other.0@
    }
}

/// The parent node over two subtree chaining values in a mode.
fn merge_subtrees_inner(left_child: &NonRootHash, right_child: &NonRootHash, mode: Mode) -> (o: Output)
    ensures
        o.model() == parent_output(words_of(left_child.0@), words_of(right_child.0@), mode_key(mode), mode_flags(mode)),
{
    crate::parent_node_output(&left_child.0, &right_child.0, &mode.key_words(), mode.flags_byte(), Platform::portable())
}

/// Compute a non-root chaining value. It is never correct to use this
/// function's return value as a root hash.
pub fn merge_subtrees_non_root(left_child: &NonRootHash, right_child: &NonRootHash, mode: Mode) -> (cv:
    NonRootHash)
    ensures
        cv.0@ == bytes_of(
            crate::tree::parent_cv(words_of(left_child.0@), words_of(right_child.0@), mode_key(mode), mode_flags(mode)),
        ),
{
    NonRootHash(merge_subtrees_inner(left_child, right_child, mode).chaining_value())
}

/// Compute the root hash, as `Hasher::finalize` does.
pub fn merge_subtrees_root(left_child: &NonRootHash, right_child: &NonRootHash, mode: Mode) -> (h: crate::Hash)
    ensures
        h@ == root_hash_bytes(
            parent_output(words_of(left_child.0@), words_of(right_child.0@), mode_key(mode), mode_flags(mode)),
        ),
{
    merge_subtrees_inner(left_child, right_child, mode).root_hash()
}

/// Return a root `OutputReader`, as `Hasher::finalize_xof` does.
pub fn merge_subtrees_xof(left_child: &NonRootHash, right_child: &NonRootHash, mode: Mode) -> (r: OutputReader)
    ensures
        r.node() == parent_output(words_of(left_child.0@), words_of(right_child.0@), mode_key(mode), mode_flags(mode)),
        r.pos() == 0,
{
    OutputReader::new(merge_subtrees_inner(left_child, right_child, mode))
}

/// The key derived from a context string, as the first step of
/// `derive_key` and `Hasher::new_derive_key`.
pub fn context_key(context: &str) -> (k: [u8; KEY_LEN])
    ensures
        k@ == root_hash_bytes(subtree_output(IV@, context.spec_bytes(), 0, DERIVE_KEY_CONTEXT)),
{
    crate::hash_all_at_once(context.as_bytes(), &IV, DERIVE_KEY_CONTEXT).root_hash().0
}

/// Extra methods of `Hasher` for hashing a subtree of a larger input.
pub trait HasherGutsExt: Sized {
    /// The hash state is well formed.
    spec fn guts_wf(&self) -> bool;

    /// The key words the hash state started from.
    spec fn guts_key_words(&self) -> Seq<u32>;

    /// The mode flags of the hash state.
    spec fn guts_mode_flags(&self) -> u8;

    /// Every byte hashed so far.
    spec fn guts_hashed(&self) -> Seq<u8>;

    /// The number of the chunk the hashed input starts at.
    spec fn guts_offset_chunks(&self) -> nat;

    /// A hash state for key derivation from an already derived context key.
    fn new_from_context_key(context_key: &[u8; KEY_LEN]) -> (h: Self)
        ensures
            h.guts_wf(),
            h.guts_key_words() == words_of(context_key@),
            h.guts_mode_flags() == DERIVE_KEY_MATERIAL,
            h.guts_hashed() == Seq::<u8>::empty(),
            h.guts_offset_chunks() == 0,
    ;

    /// Start the input at byte `offset` of a larger input: a chunk
    /// boundary, before any input has been taken.
    fn set_input_offset(&mut self, offset: u64) -> (r: &mut Self)
        requires
            old(self).guts_wf(),
            old(self).guts_hashed().len() == 0,
            offset % 1024 == 0,
        ensures
            r.guts_wf(),
            r.guts_offset_chunks() == offset / 1024,
            r.guts_hashed() == Seq::<u8>::empty(),
            r.guts_key_words() == old(self).guts_key_words(),
            r.guts_mode_flags() == old(self).guts_mode_flags(),
            *final(self) == *final(r),
    ;

    /// The chaining value of the (non-empty) subtree hashed so far.
    fn finalize_non_root(&self) -> (cv: NonRootHash)
        requires
            self.guts_wf(),
            self.guts_hashed().len() > 0,
        ensures
            cv.0@ == bytes_of(
                subtree_cv(
                    self.guts_key_words(),
                    self.guts_hashed(),
                    self.guts_offset_chunks(),
                    self.guts_mode_flags(),
                ),
            ),
    ;
}

impl HasherGutsExt for Hasher {
    open spec fn guts_wf(&self) -> bool {
        self.wf()
    }

    open spec fn guts_key_words(&self) -> Seq<u32> {
        self.key_words()
    }

    open spec fn guts_mode_flags(&self) -> u8 {
        self.mode_flags()
    }

    open spec fn guts_hashed(&self) -> Seq<u8> {
        self.hashed()
    }

    open spec fn guts_offset_chunks(&self) -> nat {
        self.offset_chunks()
    }

    fn new_from_context_key(context_key: &[u8; KEY_LEN]) -> (h: Hasher) {
        let context_key_words = crate::platform::words_from_le_bytes_32(context_key);
        Hasher::new_internal(&context_key_words, DERIVE_KEY_MATERIAL)
    }

    fn set_input_offset(&mut self, offset: u64) -> (r: &mut Hasher) {
        self.set_offset_chunks(offset / CHUNK_LEN as u64);
        self
    }

    fn finalize_non_root(&self) -> (cv: NonRootHash) {
        NonRootHash(self.final_output().chaining_value())
    }
}

} // verus!

//! The calls into other crates, each with the contract that its source and
//! documentation give it.

use arrayvec::{ArrayString, ArrayVec};
use vstd::prelude::*;

verus! {

/// `arrayvec::ArrayVec`, a vector with a fixed capacity held inline.
#[verifier::external_type_specification]
#[verifier::external_body]
#[verifier::reject_recursive_types(T)]
pub struct ExArrayVec<T, const CAP: usize>(ArrayVec<T, CAP>);

/// `arrayvec::ArrayString`, a string with a fixed byte capacity held inline.
#[verifier::external_type_specification]
#[verifier::external_body]
pub struct ExArrayString<const CAP: usize>(ArrayString<CAP>);

/// The chaining values held by a stack of the incremental hasher, bottom
/// first.
pub uninterp spec fn cv_stack_items(v: ArrayVec<[u8; 32], 55>) -> Seq<[u8; 32]>;

/// `ArrayVec::new`: an empty vector.
#[verifier::external_body]
pub(crate) fn cv_stack_new() -> (v: ArrayVec<[u8; 32], 55>)
    ensures
        cv_stack_items(v) == Seq::<[u8; 32]>::empty(),
{
    ArrayVec::new()
}

/// `ArrayVec::len`: the number of elements.
#[verifier::external_body]
pub(crate) fn cv_stack_len(v: &ArrayVec<[u8; 32], 55>) -> (n: usize)
    ensures
        n == cv_stack_items(*v).len(),
{
    v.len()
}

/// `ArrayVec::push`: appends an element; it panics when the vector is full,
/// so a full vector is excluded.
#[verifier::external_body]
pub(crate) fn cv_stack_push(v: &mut ArrayVec<[u8; 32], 55>, cv: [u8; 32])
    requires
        cv_stack_items(*old(v)).len() < 55,
    ensures
        cv_stack_items(*final(v)) == cv_stack_items(*old(v)).push(cv),
{
    v.push(cv)
}

/// `ArrayVec::pop`: removes and returns the last element, if any.
#[verifier::external_body]
pub(crate) fn cv_stack_pop(v: &mut ArrayVec<[u8; 32], 55>) -> (r: Option<[u8; 32]>)
    ensures
        cv_stack_items(*old(v)).len() == 0 ==> r is None && cv_stack_items(*final(v))
            == cv_stack_items(*old(v)),
        cv_stack_items(*old(v)).len() > 0 ==> r == Some(cv_stack_items(*old(v)).last())
            && cv_stack_items(*final(v)) == cv_stack_items(*old(v)).drop_last(),
{
    v.pop()
}

/// `ArrayVec::clone`: collects a clone of each element, in order; a clone
/// of a byte array is a copy, so the elements are the same.
#[verifier::external_body]
pub(crate) fn cv_stack_clone(v: &ArrayVec<[u8; 32], 55>) -> (r: ArrayVec<[u8; 32], 55>)
    ensures
        cv_stack_items(r) == cv_stack_items(*v),
{
    v.clone()
}

/// Indexing through `ArrayVec`'s slice view: element `i`, which must exist.
#[verifier::external_body]
pub(crate) fn cv_stack_get(v: &ArrayVec<[u8; 32], 55>, i: usize) -> (r: [u8; 32])
    requires
        i < cv_stack_items(*v).len(),
    ensures
        r == cv_stack_items(*v)[i as int],
{
    v[i]
}

/// The bytes of a fixed-capacity string of 64 bytes.
pub uninterp spec fn hex_string_bytes(s: ArrayString<64>) -> Seq<u8>;

/// `ArrayString::new`: an empty string.
#[verifier::external_body]
pub(crate) fn hex_string_new() -> (s: ArrayString<64>)
    ensures
        hex_string_bytes(s) == Seq::<u8>::empty(),
{
    ArrayString::new()
}

/// `ArrayString::push` of an ASCII character, which takes one byte; it
/// panics when the string is full, so a full string is excluded.
#[verifier::external_body]
pub(crate) fn hex_string_push(s: &mut ArrayString<64>, c: u8)
    requires
        c < 128,
        hex_string_bytes(*old(s)).len() < 64,
    ensures
        hex_string_bytes(*final(s)) == hex_string_bytes(*old(s)).push(c),
{
    s.push(c as char)
}

/// `constant_time_eq::constant_time_eq_32`: whether two 32-byte arrays are
/// equal, compared in constant time.
#[verifier::external_body]
pub(crate) fn ct_eq_32(a: &[u8; 32], b: &[u8; 32]) -> (r: bool)
    ensures
        r == (a@ == b@),
{
    constant_time_eq::constant_time_eq_32(a, b)
}

/// `std::io::Error`, the error type of I/O traits.
#[verifier::external_type_specification]
#[verifier::external_body]
pub struct ExIoError(std::io::Error);

/// `std::io::SeekFrom`, the starting point and offset of a seek.
#[verifier::external_type_specification]
pub struct ExSeekFrom(std::io::SeekFrom);

/// `u32::to_ne_bytes`: the four bytes of `x` in the host's byte order.
/// Rust's targets are little or big endian, so these are the little-endian
/// bytes of `x` or the same bytes reversed; which of the two depends on the
/// machine, and the contract does not say.
#[verifier::external_body]
pub(crate) fn u32_to_ne_bytes(x: u32) -> (b: [u8; 4])
    ensures
        b@ == crate::platform::bytes_of(seq![x]) || b@ == crate::platform::bytes_of(seq![x]).reverse(),
{
    x.to_ne_bytes()
}

/// `std::io::ErrorKind`, the general category of an I/O error.
#[verifier::external_type_specification]
pub struct ExIoErrorKind(std::io::ErrorKind);

/// What `std::io::Error::kind` returns for an error.
pub uninterp spec fn io_error_kind(e: std::io::Error) -> std::io::ErrorKind;

/// `std::io::Error::new`: an error of the given kind carrying a message. Its
/// `kind()` is the kind it was made with.
#[verifier::external_body]
pub(crate) fn io_error_new(kind: std::io::ErrorKind, message: &str) -> (e: std::io::Error)
    ensures
        io_error_kind(e) == kind,
{
    std::io::Error::new(kind, message)
}

} // verus!

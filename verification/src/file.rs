//! The decisions of the file helpers: when a file is worth memory mapping,
//! and how long the mapping is.

use vstd::prelude::*;

verus! {

/// Files shorter than this are read, not mapped: 16 KiB.
pub const MINIMUM_MMAP_SIZE: u64 = 16384;

/// Whether a file, from its metadata, is worth memory mapping: a regular
/// file that is not empty, not too long to map safely, and not so short
/// that ordinary reads are faster.
pub fn mmap_worthwhile(is_file: bool, file_size: u64) -> (r: bool)
    ensures
        r == (is_file && file_size <= isize::MAX && file_size != 0 && file_size >= MINIMUM_MMAP_SIZE),
{
    if !is_file {
        // Not a real file.
        false
    } else if file_size > isize::MAX as u64 {
        // Too long to safely map.
        false
    } else if file_size == 0 {
        // Mapping an empty file fails.
        false
    } else if file_size < MINIMUM_MMAP_SIZE {
        // Mapping small files is not worth it.
        false
    } else {
        true
    }
}

/// The length to map, given the cursor position `offset_len` that seeking
/// to `MINIMUM_MMAP_SIZE - 1` bytes before the end of a file returned:
/// none when that position is 0 (the file is exactly that long, or is a
/// device), or when the whole length would not fit in an `isize`.
pub fn mmap_length(offset_len: u64) -> (r: Option<u64>)
    ensures
        r == (if offset_len == 0 || offset_len > isize::MAX - (MINIMUM_MMAP_SIZE - 1) {
            None::<u64>
        } else {
            Some((offset_len + (MINIMUM_MMAP_SIZE - 1)) as u64)
        }),
{
    let seek_offset = MINIMUM_MMAP_SIZE - 1;
    if offset_len == 0 {
        return None;
    }
    if offset_len <= isize::MAX as u64 - seek_offset {
        Some(offset_len + seek_offset)
    } else {
        None
    }
}

} // verus!

use blake3::guts::{parent_cv, ChunkState};
use blake3::platform::{le_bytes_from_words_32, words_from_le_bytes_32, Platform, TransposedVectors};
use blake3::portable::{
    compress_in_place, compress_xof, hash_chunks, hash_many, hash_parents, hash_parents_in_place, universal_hash,
    xof, xof_xor,
};
use blake3::test_vectors::{paint_test_input, TEST_KEY};
use blake3::{IncrementCounter, BLOCK_LEN, CHUNK_END, CHUNK_LEN, CHUNK_START, IV, KEYED_HASH, PARENT, ROOT};

const INITIAL_COUNTERS: [u64; 4] = [0, i32::MAX as u64, u32::MAX as u64, (42u64 << 32) + u32::MAX as u64];
const BLOCK_LENGTHS: [usize; 4] = [0, 1, 63, 64];

fn column(tv: &TransposedVectors, c: usize) -> [u32; 8] {
    let mut cv = [0u32; 8];
    for w in 0..8 {
        cv[w] = tv.0[w][c];
    }
    cv
}

fn chunk_cv(chunk: &[u8], counter: u64) -> [u8; 32] {
    *ChunkState::new(counter).update(chunk).finalize(false).as_bytes()
}

/// The compression function's two outputs agree: the chaining value is the
/// first half of the extended output.
fn check_compress_consistency(platform: Platform) {
    let key = words_from_le_bytes_32(&TEST_KEY);
    for block_len in BLOCK_LENGTHS {
        let mut block = [0; BLOCK_LEN];
        paint_test_input(&mut block[..block_len]);
        for counter in INITIAL_COUNTERS {
            let mut cv = key;
            platform.compress_in_place(&mut cv, &block, block_len as u8, counter, KEYED_HASH | ROOT);
            let xof_out = platform.compress_xof(&key, &block, block_len as u8, counter, KEYED_HASH | ROOT);
            assert_eq!(&le_bytes_from_words_32(&cv)[..], &xof_out[..32]);

            let mut portable_cv = key;
            compress_in_place(&mut portable_cv, &block, block_len as u8, counter, KEYED_HASH | ROOT);
            assert_eq!(cv, portable_cv);
            assert_eq!(
                xof_out,
                compress_xof(&key, &block, block_len as u8, counter, KEYED_HASH | ROOT)
            );
        }
    }
}

/// `hash_many` over chunks gives the chunks' chaining values, and over
/// parent blocks the parents' chaining values.
fn check_hash_many(platform: Platform) {
    const NUM_INPUTS: usize = 31;
    let mut input_buf = vec![0u8; CHUNK_LEN * NUM_INPUTS];
    paint_test_input(&mut input_buf);
    for counter in [0u64, u32::MAX as u64] {
        let mut out = vec![0u8; NUM_INPUTS * 32];
        platform.hash_many(
            &input_buf,
            CHUNK_LEN,
            &IV,
            counter,
            IncrementCounter::Yes,
            0,
            CHUNK_START,
            CHUNK_END,
            &mut out,
        );
        let mut portable_out = vec![0u8; NUM_INPUTS * 32];
        hash_many(
            &input_buf,
            CHUNK_LEN,
            &IV,
            counter,
            IncrementCounter::Yes,
            0,
            CHUNK_START,
            CHUNK_END,
            &mut portable_out,
        );
        assert_eq!(out, portable_out);
        for n in 0..NUM_INPUTS {
            let expected = chunk_cv(&input_buf[n * CHUNK_LEN..][..CHUNK_LEN], counter + n as u64);
            assert_eq!(&out[n * 32..][..32], &expected[..]);
        }
    }

    let parents = &input_buf[..NUM_INPUTS * BLOCK_LEN];
    let mut out = vec![0u8; NUM_INPUTS * 32];
    platform.hash_many(parents, BLOCK_LEN, &IV, 0, IncrementCounter::No, PARENT, 0, 0, &mut out);
    for n in 0..NUM_INPUTS {
        let block = &parents[n * BLOCK_LEN..][..BLOCK_LEN];
        let mut left = [0u8; 32];
        let mut right = [0u8; 32];
        left.copy_from_slice(&block[..32]);
        right.copy_from_slice(&block[32..]);
        let expected = parent_cv(&left.into(), &right.into(), false);
        assert_eq!(&out[n * 32..][..32], expected.as_bytes());
    }
}

#[test]
fn portable_test_compress() {
    check_compress_consistency(Platform::portable());
}

#[test]
fn portable_test_hash_many() {
    check_hash_many(Platform::portable());
}

#[test]
fn sse41_test_compress() {
    let Some(sse41) = Platform::sse41(true) else {
        return;
    };
    let initial_state = words_from_le_bytes_32(&TEST_KEY);
    let block_len: u8 = 27;
    let mut block = [0; BLOCK_LEN];
    paint_test_input(&mut block[..block_len as usize]);
    // Use an offset with set bits in both 32-bit words.
    let offset = ((5 * CHUNK_LEN as u64) << 32) + 6 * CHUNK_LEN as u64;
    let flags = CHUNK_END | ROOT;

    let portable_out = compress_xof(&initial_state, &block, block_len, offset, flags);
    let simd_out = sse41.compress_xof(&initial_state, &block, block_len, offset, flags);
    assert_eq!(&portable_out[..], &simd_out[..]);
}

#[test]
fn rust_avx512_test_compress() {
    let Some(avx512) = Platform::avx512(true) else {
        return;
    };
    check_compress_consistency(avx512);
}

#[test]
fn rust_avx512_test_hash_many() {
    let Some(avx512) = Platform::avx512(true) else {
        return;
    };
    check_hash_many(avx512);
}

#[test]
fn c_neon_test_hash_many() {
    let Some(neon) = Platform::neon() else {
        return;
    };
    check_hash_many(neon);
}

#[test]
fn test_xof_many() {
    let Some(avx512) = Platform::avx512(true) else {
        return;
    };
    let key = words_from_le_bytes_32(&TEST_KEY);
    let mut block = [0; BLOCK_LEN];
    let block_len = 42;
    paint_test_input(&mut block[..block_len]);
    let flags = KEYED_HASH;
    for counter in INITIAL_COUNTERS {
        for num_blocks in [0, 1, 2, 15, 16, 17, 31] {
            let mut out = vec![0u8; num_blocks * BLOCK_LEN];
            avx512.xof_many(&key, &block, block_len as u8, counter, flags, &mut out);
            for i in 0..num_blocks {
                let expected = compress_xof(&key, &block, block_len as u8, counter + i as u64, flags);
                assert_eq!(&out[i * BLOCK_LEN..][..BLOCK_LEN], &expected[..]);
            }
        }
    }
}

#[test]
fn test_hash_chunks() {
    const TEST_DEGREE: usize = 4;
    let mut input = vec![0u8; TEST_DEGREE * CHUNK_LEN];
    paint_test_input(&mut input);
    for counter in INITIAL_COUNTERS {
        for num_chunks in 1..=TEST_DEGREE {
            for output_column in [0, TEST_DEGREE] {
                let mut output = TransposedVectors([[0xAAAA_AAAA; 32]; 8]);
                hash_chunks(
                    &input[..num_chunks * CHUNK_LEN],
                    &IV,
                    counter,
                    0,
                    &mut output,
                    output_column,
                );
                for i in 0..num_chunks {
                    let expected = chunk_cv(&input[i * CHUNK_LEN..][..CHUNK_LEN], counter + i as u64);
                    assert_eq!(le_bytes_from_words_32(&column(&output, output_column + i)), expected);
                }
                // Columns before the output are untouched.
                for c in 0..output_column {
                    assert_eq!(column(&output, c), [0xAAAA_AAAA; 8]);
                }
            }
        }
    }
}

#[test]
fn test_hash_parents() {
    const TEST_DEGREE: usize = 4;
    let mut input = TransposedVectors([[0; 32]; 8]);
    for c in 0..2 * TEST_DEGREE {
        let mut bytes = [0u8; 32];
        for (i, b) in bytes.iter_mut().enumerate() {
            *b = (c * 32 + i) as u8;
        }
        let words = words_from_le_bytes_32(&bytes);
        for w in 0..8 {
            input.0[w][c] = words[w];
        }
    }
    for num_parents in 1..=TEST_DEGREE {
        let mut output = TransposedVectors([[0; 32]; 8]);
        hash_parents(&input, num_parents, &IV, PARENT, &mut output, 0);
        let mut in_place = input;
        hash_parents_in_place(&mut in_place, num_parents, &IV, PARENT);
        for p in 0..num_parents {
            let left = le_bytes_from_words_32(&column(&input, 2 * p));
            let right = le_bytes_from_words_32(&column(&input, 2 * p + 1));
            let expected = parent_cv(&left.into(), &right.into(), false);
            assert_eq!(&le_bytes_from_words_32(&column(&output, p)), expected.as_bytes());
            assert_eq!(column(&in_place, p), column(&output, p));
        }
        // The in-place version leaves the rest of the columns alone.
        for c in num_parents..2 * TEST_DEGREE {
            assert_eq!(column(&in_place, c), column(&input, c));
        }
    }
}

#[test]
fn test_xof_and_xor() {
    let key = words_from_le_bytes_32(&TEST_KEY);
    for counter in INITIAL_COUNTERS {
        for block_len in BLOCK_LENGTHS {
            let mut block = [0; BLOCK_LEN];
            paint_test_input(&mut block[..block_len]);
            for out_len in [0, 1, 63, 64, 65, 127, 128, 129, 1000] {
                let mut out = vec![0u8; out_len];
                xof(&block, block_len as u8, &key, counter, KEYED_HASH | ROOT, &mut out);
                for i in 0..out_len {
                    let expected =
                        compress_xof(&key, &block, block_len as u8, counter + (i / 64) as u64, KEYED_HASH | ROOT);
                    assert_eq!(out[i], expected[i % 64]);
                }
                // XORing the same stream in again gives zeros.
                xof_xor(&block, block_len as u8, &key, counter, KEYED_HASH | ROOT, &mut out);
                assert!(out.iter().all(|&b| b == 0));
                // XORing into a painted buffer changes exactly by the stream.
                let mut painted = vec![0u8; out_len];
                paint_test_input(&mut painted);
                let mut xored = painted.clone();
                xof_xor(&block, block_len as u8, &key, counter, KEYED_HASH | ROOT, &mut xored);
                let mut stream = vec![0u8; out_len];
                xof(&block, block_len as u8, &key, counter, KEYED_HASH | ROOT, &mut stream);
                for i in 0..out_len {
                    assert_eq!(xored[i], painted[i] ^ stream[i]);
                }
            }
        }
    }
}

#[test]
fn test_xof_matches_output_reader() {
    let mut hasher = blake3::Hasher::new();
    hasher.update(b"hello");
    let mut expected = [0u8; 200];
    hasher.finalize_xof().fill(&mut expected);
    let mut block = [0u8; BLOCK_LEN];
    block[..5].copy_from_slice(b"hello");
    let mut out = [0u8; 200];
    xof(&block, 5, &IV, 0, CHUNK_START | CHUNK_END | ROOT, &mut out);
    assert_eq!(&expected[..], &out[..]);
}

#[test]
fn test_universal_hash() {
    let key = words_from_le_bytes_32(&TEST_KEY);
    // One block with counter 0 is a keyed root chunk: the first 16 bytes of
    // the keyed hash.
    for len in [0usize, 1, 31, 63, 64] {
        let mut input = vec![0u8; len];
        paint_test_input(&mut input);
        let out = universal_hash(&input, &key, 0);
        let expected = blake3::keyed_hash(&TEST_KEY, &input);
        assert_eq!(&out[..], &expected.as_bytes()[..16]);
    }
    // Longer inputs XOR the outputs of their blocks.
    for counter in INITIAL_COUNTERS {
        for len in [65usize, 128, 129, 1000] {
            let mut input = vec![0u8; len];
            paint_test_input(&mut input);
            let out = universal_hash(&input, &key, counter);
            let mut expected = [0u8; 16];
            let mut start = 0;
            let mut block_counter = counter;
            while start < len {
                let end = core::cmp::min(start + BLOCK_LEN, len);
                let mut block = [0u8; BLOCK_LEN];
                block[..end - start].copy_from_slice(&input[start..end]);
                let block_out = compress_xof(
                    &key,
                    &block,
                    (end - start) as u8,
                    block_counter,
                    KEYED_HASH | CHUNK_START | CHUNK_END | ROOT,
                );
                for i in 0..16 {
                    expected[i] ^= block_out[i];
                }
                start = end;
                block_counter += 1;
            }
            assert_eq!(out, expected);
        }
    }
}

/// Without counter increments every input uses the given counter, even the
/// largest one.
#[test]
fn test_hash_many_fixed_max_counter() {
    let mut input_buf = vec![0u8; 2 * BLOCK_LEN];
    paint_test_input(&mut input_buf);
    let flags = CHUNK_START | CHUNK_END;
    let mut expected = vec![0u8; 2 * 32];
    for n in 0..2 {
        let mut block = [0u8; BLOCK_LEN];
        block.copy_from_slice(&input_buf[n * BLOCK_LEN..][..BLOCK_LEN]);
        let mut cv = IV;
        compress_in_place(&mut cv, &block, BLOCK_LEN as u8, u64::MAX, flags);
        expected[n * 32..][..32].copy_from_slice(&le_bytes_from_words_32(&cv));
    }
    let mut out = vec![0u8; 2 * 32];
    Platform::portable().hash_many(
        &input_buf,
        BLOCK_LEN,
        &IV,
        u64::MAX,
        IncrementCounter::No,
        0,
        CHUNK_START,
        CHUNK_END,
        &mut out,
    );
    assert_eq!(out, expected);
    let mut portable_out = vec![0u8; 2 * 32];
    hash_many(
        &input_buf,
        BLOCK_LEN,
        &IV,
        u64::MAX,
        IncrementCounter::No,
        0,
        CHUNK_START,
        CHUNK_END,
        &mut portable_out,
    );
    assert_eq!(portable_out, expected);
}

/// The last chunk may take the largest counter.
#[test]
fn test_hash_chunks_last_counter_max() {
    let mut input = vec![0u8; 2 * CHUNK_LEN];
    paint_test_input(&mut input);
    let counter = u64::MAX - 1;
    let mut output = TransposedVectors([[0xAAAA_AAAA; 32]; 8]);
    hash_chunks(&input, &IV, counter, 0, &mut output, 0);
    for i in 0..2 {
        let expected = chunk_cv(&input[i * CHUNK_LEN..][..CHUNK_LEN], counter + i as u64);
        assert_eq!(le_bytes_from_words_32(&column(&output, i)), expected);
    }
    assert_eq!(column(&output, 2), [0xAAAA_AAAA; 8]);
}

/// Output bytes past the hashed inputs' chaining values stay as they were.
#[test]
fn test_hash_many_leaves_rest_of_output() {
    let mut input_buf = vec![0u8; 2 * BLOCK_LEN];
    paint_test_input(&mut input_buf);
    let mut out = vec![0x5Au8; 2 * 32 + 7];
    Platform::portable().hash_many(&input_buf, BLOCK_LEN, &IV, 0, IncrementCounter::Yes, 0, CHUNK_START, CHUNK_END, &mut out);
    assert_eq!(&out[64..], &[0x5Au8; 7][..]);
}

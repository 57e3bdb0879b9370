use blake3::blake3_guts::{
    avx512, riscv64gcv, Implementation, TransposedVectors, CHUNK_END, CHUNK_LEN, CHUNK_START, IV, KEYED_HASH,
    PARENT, ROOT,
};
use blake3::blake3_guts::paint_test_input;
use blake3::platform::{le_bytes_from_words_32, words_from_le_bytes_32};

const TEST_KEY: [u8; 32] = *b"whats the Elvish word for friend";
const INITIAL_COUNTERS: [u64; 4] = [0, i32::MAX as u64, u32::MAX as u64, (42u64 << 32) + u32::MAX as u64];
const BLOCK_LENGTHS: [usize; 4] = [0, 1, 63, 64];

fn column(vectors: &[[u32; 32]; 8], c: usize) -> [u32; 8] {
    let mut cv = [0u32; 8];
    for w in 0..8 {
        cv[w] = vectors[w][c];
    }
    cv
}

/// Hash whole inputs of 2 to `degree` chunks by chunks, then parents layer
/// by layer, and compare the root with the hash of the whole input.
fn check_chunks_and_parents_vs_reference(imp: &Implementation) {
    let degree = imp.degree();
    let mut input = vec![0u8; degree * CHUNK_LEN];
    paint_test_input(&mut input);
    for num_chunks in 2..=degree {
        for last_len in [1, CHUNK_LEN / 2, CHUNK_LEN] {
            let len = (num_chunks - 1) * CHUNK_LEN + last_len;
            let mut vectors = TransposedVectors::new();
            let (left, _) = imp.split_transposed_vectors(&mut vectors.vectors);
            let n = imp.hash_chunks(&input[..len], &IV, 0, 0, &mut vectors.vectors, left);
            assert_eq!(n, num_chunks);
            vectors.len = n;
            while vectors.len > 2 {
                vectors.len = imp.reduce_parents(&mut vectors, &IV, PARENT);
            }
            let mut block = [0u8; 64];
            block[..32].copy_from_slice(&le_bytes_from_words_32(&column(&vectors.vectors, 0)));
            block[32..].copy_from_slice(&le_bytes_from_words_32(&column(&vectors.vectors, 1)));
            let root = imp.compress(&block, 64, &IV, 0, PARENT | ROOT);
            assert_eq!(&le_bytes_from_words_32(&root), blake3::hash(&input[..len]).as_bytes());
        }
    }
}

fn check_xof_vs_portable(imp: &Implementation) {
    let key = words_from_le_bytes_32(&TEST_KEY);
    for block_len in BLOCK_LENGTHS {
        let mut block = [0u8; 64];
        paint_test_input(&mut block[..block_len]);
        for counter in INITIAL_COUNTERS {
            for out_len in [0, 1, 64, 65, 1000] {
                let mut expected = vec![0u8; out_len];
                Implementation::portable().xof(&block, block_len as u32, &key, counter, KEYED_HASH, &mut expected);
                let mut out = vec![0u8; out_len];
                imp.xof(&block, block_len as u32, &key, counter, KEYED_HASH, &mut out);
                assert_eq!(expected, out);
                imp.xof_xor(&block, block_len as u32, &key, counter, KEYED_HASH, &mut out);
                assert!(out.iter().all(|&b| b == 0));
            }
        }
    }
}

fn check_xof_vs_reference(imp: &Implementation) {
    for block_len in BLOCK_LENGTHS {
        let mut block = [0u8; 64];
        paint_test_input(&mut block[..block_len]);
        let mut expected = [0u8; 301];
        blake3::Hasher::new_keyed(&TEST_KEY)
            .update(&block[..block_len])
            .finalize_xof()
            .fill(&mut expected);
        let key = words_from_le_bytes_32(&TEST_KEY);
        let mut out = [0u8; 301];
        imp.xof(&block, block_len as u32, &key, 0, KEYED_HASH | CHUNK_START | CHUNK_END | ROOT, &mut out);
        assert_eq!(&expected[..], &out[..]);
    }
}

fn check_universal_hash_vs_portable(imp: &Implementation) {
    let key = words_from_le_bytes_32(&TEST_KEY);
    let mut input = vec![0u8; 1000];
    paint_test_input(&mut input);
    for counter in INITIAL_COUNTERS {
        for len in [0, 1, 63, 64, 65, 128, 1000] {
            let expected = Implementation::portable().universal_hash(&input[..len], &key, counter);
            assert_eq!(imp.universal_hash(&input[..len], &key, counter), expected);
        }
    }
}

fn check_universal_hash_vs_reference(imp: &Implementation) {
    let key = words_from_le_bytes_32(&TEST_KEY);
    // Nothing is compressed for empty input.
    assert_eq!(imp.universal_hash(&[], &key, 0), [0u8; 16]);
    // One block is compressed as a full, zero-padded keyed root chunk.
    for len in [1usize, 31, 63, 64] {
        let mut block = [0u8; 64];
        paint_test_input(&mut block[..len]);
        let expected = blake3::keyed_hash(&TEST_KEY, &block);
        assert_eq!(&imp.universal_hash(&block[..len], &key, 0)[..], &expected.as_bytes()[..16]);
    }
    // Longer inputs XOR their blocks' outputs, with the counter going up.
    let mut input = vec![0u8; 200];
    paint_test_input(&mut input);
    let mut expected = [0u8; 16];
    for (i, start) in [0usize, 64, 128, 192].iter().enumerate() {
        let end = core::cmp::min(start + 64, input.len());
        let mut block = [0u8; 64];
        block[..end - start].copy_from_slice(&input[*start..end]);
        let out = imp.compress_xof(&block, 64, &key, 5 + i as u64, KEYED_HASH | CHUNK_START | CHUNK_END | ROOT);
        for k in 0..16 {
            expected[k] ^= out[k];
        }
    }
    assert_eq!(imp.universal_hash(&input, &key, 5), expected);
}

#[test]
fn avx512_test_chunks_and_parents_vs_reference() {
    let Some(implementation) = avx512::implementation(true) else { return };
    check_chunks_and_parents_vs_reference(&implementation);
}

#[test]
fn avx512_test_xof_vs_portable() {
    let Some(implementation) = avx512::implementation(true) else { return };
    check_xof_vs_portable(&implementation);
}

#[test]
fn avx512_test_xof_vs_reference() {
    let Some(implementation) = avx512::implementation(true) else { return };
    check_xof_vs_reference(&implementation);
}

#[test]
fn avx512_test_universal_hash_vs_portable() {
    let Some(implementation) = avx512::implementation(true) else { return };
    check_universal_hash_vs_portable(&implementation);
}

#[test]
fn avx512_test_universal_hash_vs_reference() {
    let Some(implementation) = avx512::implementation(true) else { return };
    check_universal_hash_vs_reference(&implementation);
}

#[test]
fn riscv64gcv_test_chunks_and_parents_vs_reference() {
    check_chunks_and_parents_vs_reference(&riscv64gcv::implementation());
}

#[test]
fn riscv64gcv_test_xof_vs_portable() {
    check_xof_vs_portable(&riscv64gcv::implementation());
}

#[test]
fn riscv64gcv_test_xof_vs_reference() {
    check_xof_vs_reference(&riscv64gcv::implementation());
}

#[test]
fn riscv64gcv_test_universal_hash_vs_portable() {
    check_universal_hash_vs_portable(&riscv64gcv::implementation());
}

#[test]
fn riscv64gcv_test_universal_hash_vs_reference() {
    check_universal_hash_vs_reference(&riscv64gcv::implementation());
}

#[test]
fn test_avx512_unsupported() {
    assert!(avx512::implementation(false).is_none());
}

#[test]
fn test_hash_parents_odd_count() {
    let imp = Implementation::portable();
    let mut input = TransposedVectors::new();
    for c in 0..5 {
        for w in 0..8 {
            input.vectors[w][c] = (c * 8 + w) as u32;
        }
    }
    input.len = 5;
    let mut vectors = [[0u32; 32]; 8];
    let (_, right) = imp.split_transposed_vectors(&mut vectors);
    let n = imp.hash_parents(&input, &IV, PARENT, &mut vectors, right);
    assert_eq!(n, 3);
    let d = imp.degree();
    // The odd value moves up unchanged.
    assert_eq!(column(&vectors, d + 2), column(&input.vectors, 4));
    // Each parent is the compression of its two children.
    for p in 0..2 {
        let mut block = [0u8; 64];
        block[..32].copy_from_slice(&le_bytes_from_words_32(&column(&input.vectors, 2 * p)));
        block[32..].copy_from_slice(&le_bytes_from_words_32(&column(&input.vectors, 2 * p + 1)));
        assert_eq!(column(&vectors, d + p), imp.compress(&block, 64, &IV, 0, PARENT));
    }
    // The left half is untouched.
    for c in 0..d {
        assert_eq!(column(&vectors, c), [0; 8]);
    }
}

#[test]
fn test_free_functions_use_portable() {
    assert_eq!(blake3::blake3_guts::degree(), Implementation::portable().degree());
    let key = words_from_le_bytes_32(&TEST_KEY);
    let block = [7u8; 64];
    assert_eq!(
        blake3::blake3_guts::compress(&block, 64, &key, 3, KEYED_HASH),
        Implementation::portable().compress(&block, 64, &key, 3, KEYED_HASH)
    );
}

/// Flag bits beyond the defined ones are passed through to every block of
/// a chunk, beside the chunk start and end flags.
#[test]
fn test_hash_chunks_high_flag_bits() {
    let imp = Implementation::portable();
    let extra: u32 = 0x100;
    let mut input = [0u8; 128];
    paint_test_input(&mut input);
    let counter: u64 = 7;
    let mut first = [0u8; 64];
    let mut second = [0u8; 64];
    first.copy_from_slice(&input[..64]);
    second.copy_from_slice(&input[64..]);

    // One block: start and end on the same block.
    let one = imp.compress(&first, 64, &IV, counter, extra | CHUNK_START | CHUNK_END);
    let mut vectors = TransposedVectors::new();
    let (left, _) = imp.split_transposed_vectors(&mut vectors.vectors);
    let n = imp.hash_chunks(&input[..64], &IV, counter, extra, &mut vectors.vectors, left);
    assert_eq!(n, 1);
    assert_eq!(column(&vectors.vectors, 0), one);

    // Two blocks: the start flag only on the first, the end flag only on
    // the last.
    let cv = imp.compress(&first, 64, &IV, counter, extra | CHUNK_START);
    let two = imp.compress(&second, 64, &cv, counter, extra | CHUNK_END);
    let mut vectors = TransposedVectors::new();
    let (left, _) = imp.split_transposed_vectors(&mut vectors.vectors);
    let n = imp.hash_chunks(&input, &IV, counter, extra, &mut vectors.vectors, left);
    assert_eq!(n, 1);
    assert_eq!(column(&vectors.vectors, 0), two);
    assert_ne!(one, two);
}

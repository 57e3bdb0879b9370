use blake3::guts::{
    context_key, max_subtree_len, merge_subtrees_non_root, merge_subtrees_root, merge_subtrees_xof,
    parent_cv, ChunkState, HasherGutsExt, Mode, NonRootHash,
};
use blake3::test_vectors::{paint_test_input, TEST_CASES};
use blake3::{Hasher, CHUNK_LEN};

#[test]
fn guts_test_max_subtree_len() {
    // (chunk index, max chunks)
    let cases = [(1, 1), (2, 2), (3, 1), (4, 4), (5, 1), (6, 2), (7, 1), (8, 8)];
    for (counter, chunks) in cases {
        assert_eq!(max_subtree_len(counter), chunks * CHUNK_LEN as u64);
    }
}

#[test]
fn test_chunk() {
    assert_eq!(
        blake3::hash(b"foo"),
        ChunkState::new(0).update(b"foo").finalize(true)
    );
}

#[test]
fn guts_test_parents() {
    let mut hasher = Hasher::new();
    let mut buf = [0; CHUNK_LEN];

    buf[0] = 'a' as u8;
    hasher.update(&buf);
    let chunk0_cv = ChunkState::new(0).update(&buf).finalize(false);

    buf[0] = 'b' as u8;
    hasher.update(&buf);
    let chunk1_cv = ChunkState::new(1).update(&buf).finalize(false);

    hasher.update(b"c");
    let chunk2_cv = ChunkState::new(2).update(b"c").finalize(false);

    let parent = parent_cv(&chunk0_cv, &chunk1_cv, false);
    let root = parent_cv(&parent, &chunk2_cv, true);
    assert_eq!(hasher.finalize(), root);
}

#[test]
fn guts_test_grouped_hash() {
    const TEST_CASES_MAX: usize = 31 * CHUNK_LEN;
    let mut input_buf = [0; TEST_CASES_MAX];
    paint_test_input(&mut input_buf);
    for subtree_chunks in [1, 2, 4, 8, 16, 32] {
        let subtree_len = subtree_chunks * CHUNK_LEN;
        for &case in TEST_CASES.iter() {
            if case <= subtree_len {
                continue;
            }
            let input = &input_buf[..case];
            let expected_hash = blake3::hash(input);

            // Collect all the group chaining values.
            let mut chaining_values: Vec<NonRootHash> = Vec::new();
            let mut subtree_offset = 0;
            while subtree_offset < input.len() {
                let take = core::cmp::min(subtree_len, input.len() - subtree_offset);
                let subtree_input = &input[subtree_offset..][..take];
                let subtree_cv = Hasher::new()
                    .set_input_offset(subtree_offset as u64)
                    .update(subtree_input)
                    .finalize_non_root();
                chaining_values.push(subtree_cv);
                subtree_offset += take;
            }

            // Compress all the chaining_values together, layer by layer.
            assert!(chaining_values.len() >= 2);
            while chaining_values.len() > 2 {
                let n = chaining_values.len();
                for i in 0..(n / 2) {
                    chaining_values[i] = merge_subtrees_non_root(
                        &chaining_values[2 * i],
                        &chaining_values[2 * i + 1],
                        Mode::Hash,
                    );
                }
                if n % 2 == 1 {
                    chaining_values[n / 2] = chaining_values[n - 1];
                }
                chaining_values.truncate(n / 2 + n % 2);
            }
            assert_eq!(chaining_values.len(), 2);
            let root_hash = merge_subtrees_root(&chaining_values[0], &chaining_values[1], Mode::Hash);
            assert_eq!(expected_hash, root_hash);
        }
    }
}

#[test]
fn guts_test_keyed_hash_xof() {
    let group0 = &[42; 4096];
    let group1 = &[43; 4095];
    let mut input = [0; 8191];
    input[..4096].copy_from_slice(group0);
    input[4096..].copy_from_slice(group1);
    let key = &[44; 32];

    let mut expected_output = [0; 100];
    Hasher::new_keyed(&key)
        .update(&input)
        .finalize_xof()
        .fill(&mut expected_output);

    let mut guts_output = [0; 100];
    let left = Hasher::new_keyed(key).update(group0).finalize_non_root();
    let right = Hasher::new_keyed(key)
        .set_input_offset(group0.len() as u64)
        .update(group1)
        .finalize_non_root();
    merge_subtrees_xof(&left, &right, Mode::KeyedHash(&key)).fill(&mut guts_output);
    assert_eq!(expected_output, guts_output);
}

#[test]
fn guts_test_derive_key() {
    let context = "foo";
    let mut input = [0; 1025];
    paint_test_input(&mut input);
    let mut expected = [0u8; 32];
    blake3::derive_key(context, &input, &mut expected);

    let cx_key = context_key(context);
    let left = Hasher::new_from_context_key(&cx_key)
        .update(&input[..1024])
        .finalize_non_root();
    let right = Hasher::new_from_context_key(&cx_key)
        .set_input_offset(1024)
        .update(&input[1024..])
        .finalize_non_root();
    let derived_key = merge_subtrees_root(&left, &right, Mode::DeriveKeyMaterial(&cx_key));
    assert_eq!(&expected, derived_key.as_bytes());
}

#[test]
fn guts_test_non_root_hash_equality() {
    let a = NonRootHash([7; 32]);
    let b = NonRootHash([7; 32]);
    let c = NonRootHash([8; 32]);
    assert!(a == b);
    assert!(a != c);
}

#[test]
fn guts_test_chunk_state_len_and_counter() {
    let mut chunk = ChunkState::new(5);
    assert_eq!(chunk.len(), 0);
    chunk.update(&[1, 2, 3]);
    assert_eq!(chunk.len(), 3);
    chunk.update(&[0; 1021]);
    assert_eq!(chunk.len(), CHUNK_LEN);
}

/// A chunk fed in two pieces is the chunk fed at once, and as the root it
/// gives the hash of its bytes.
#[test]
fn test_chunk_state_update_in_pieces() {
    let a = [7u8; 100];
    let b = [9u8; 300];
    let mut joined = Vec::new();
    joined.extend_from_slice(&a);
    joined.extend_from_slice(&b);
    let mut s1 = ChunkState::new(0);
    s1.update(&a).update(&b);
    let mut s2 = ChunkState::new(0);
    s2.update(&joined);
    assert_eq!(s1.len(), 400);
    assert_eq!(s2.len(), 400);
    assert_eq!(s1.finalize(true), s2.finalize(true));
    assert_eq!(s1.finalize(false), s2.finalize(false));
    assert_eq!(s1.finalize(true), blake3::hash(&joined));
}

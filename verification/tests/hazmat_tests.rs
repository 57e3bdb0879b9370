use blake3::hazmat::{
    context_key, max_subtree_len, merge_subtrees_non_root, merge_subtrees_root, merge_subtrees_xof,
    ChainingValue, HasherExt, Mode,
};
use blake3::test_vectors::{paint_test_input, TEST_CASES};
use blake3::{Hasher, CHUNK_LEN};

#[test]
fn hazmat_test_max_subtree_len() {
    // (chunk index, max chunks)
    let cases = [(1, 1), (2, 2), (3, 1), (4, 4), (5, 1), (6, 2), (7, 1), (8, 8)];
    for (counter, chunks) in cases {
        assert_eq!(max_subtree_len(counter), chunks * CHUNK_LEN as u64);
    }
}

#[test]
fn hazmat_test_max_subtree_len_large() {
    assert_eq!(max_subtree_len(1 << 20), (1 << 20) * CHUNK_LEN as u64);
    assert_eq!(max_subtree_len(12), 4 * CHUNK_LEN as u64);
}

#[test]
fn hazmat_test_grouped_hash() {
    const TEST_CASES_MAX: usize = 31 * CHUNK_LEN;
    let mut input_buf = [0; TEST_CASES_MAX];
    paint_test_input(&mut input_buf);
    for subtree_chunks in [1, 2, 4, 8, 16, 32] {
        let subtree_len = subtree_chunks * CHUNK_LEN;
        for &case in TEST_CASES.iter() {
            if case <= subtree_len {
                continue;
            }
            let input = &input_buf[..case];
            let expected_hash = blake3::hash(input);

            let mut chaining_values: Vec<ChainingValue> = Vec::new();
            let mut subtree_offset = 0;
            while subtree_offset < input.len() {
                let take = core::cmp::min(subtree_len, input.len() - subtree_offset);
                let subtree_input = &input[subtree_offset..][..take];
                let subtree_cv = Hasher::new()
                    .set_input_offset(subtree_offset as u64)
                    .update(subtree_input)
                    .finalize_non_root();
                chaining_values.push(subtree_cv);
                subtree_offset += take;
            }

            assert!(chaining_values.len() >= 2);
            while chaining_values.len() > 2 {
                let n = chaining_values.len();
                for i in 0..(n / 2) {
                    chaining_values[i] = merge_subtrees_non_root(
                        &chaining_values[2 * i],
                        &chaining_values[2 * i + 1],
                        Mode::Hash,
                    );
                }
                if n % 2 == 1 {
                    chaining_values[n / 2] = chaining_values[n - 1];
                }
                chaining_values.truncate(n / 2 + n % 2);
            }
            assert_eq!(chaining_values.len(), 2);
            let root_hash = merge_subtrees_root(&chaining_values[0], &chaining_values[1], Mode::Hash);
            assert_eq!(expected_hash, root_hash);
        }
    }
}

#[test]
fn hazmat_test_keyed_hash_xof() {
    let group0 = &[42; 4096];
    let group1 = &[43; 4095];
    let mut input = [0; 8191];
    input[..4096].copy_from_slice(group0);
    input[4096..].copy_from_slice(group1);
    let key = &[44; 32];

    let mut expected_output = [0; 100];
    Hasher::new_keyed(&key)
        .update(&input)
        .finalize_xof()
        .fill(&mut expected_output);

    let mut hazmat_output = [0; 100];
    let left = Hasher::new_keyed(key).update(group0).finalize_non_root();
    let right = Hasher::new_keyed(key)
        .set_input_offset(group0.len() as u64)
        .update(group1)
        .finalize_non_root();
    merge_subtrees_xof(&left, &right, Mode::KeyedHash(&key)).fill(&mut hazmat_output);
    assert_eq!(expected_output, hazmat_output);
}

#[test]
fn hazmat_test_derive_key() {
    let context = "foo";
    let mut input = [0; 1025];
    paint_test_input(&mut input);
    let mut expected = [0u8; 32];
    blake3::derive_key(context, &input, &mut expected);

    let cx_key = context_key(context);
    let left = Hasher::new_from_context_key(&cx_key)
        .update(&input[..1024])
        .finalize_non_root();
    let right = Hasher::new_from_context_key(&cx_key)
        .set_input_offset(1024)
        .update(&input[1024..])
        .finalize_non_root();
    let derived_key = merge_subtrees_root(&left, &right, Mode::DeriveKeyMaterial(&cx_key));
    assert_eq!(&expected, derived_key.as_bytes());
}

#[test]
fn hazmat_test_context_key_matches_new_derive_key() {
    let context = "my context";
    let cx_key = context_key(context);
    let mut a = Hasher::new_derive_key(context);
    let mut b = Hasher::new_from_context_key(&cx_key);
    a.update(b"material");
    b.update(b"material");
    assert_eq!(a.finalize(), b.finalize());
}

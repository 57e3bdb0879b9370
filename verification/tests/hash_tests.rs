use std::io::{ErrorKind, Read, Seek, SeekFrom};
use blake3::test_vectors::{paint_test_input, TEST_CASES, TEST_KEY};
use blake3::{CHUNK_LEN, OUT_LEN};

fn hex(bytes: &[u8]) -> String {
    let mut s = String::new();
    for b in bytes {
        s.push_str(&format!("{:02x}", b));
    }
    s
}

fn painted(len: usize) -> Vec<u8> {
    let mut v = vec![0u8; len];
    paint_test_input(&mut v);
    v
}

#[test]
fn test_hash_empty_vector() {
    let h = blake3::hash(b"");
    assert_eq!(
        h.to_hex().as_str(),
        "af1349b9f5f9a1a6a0404dea36dcc9499bcb25c9adc112b7cc9a93cae41f3262"
    );
}

#[test]
fn test_hash_abc_vector() {
    let h = blake3::hash(b"abc");
    assert_eq!(
        hex(h.as_bytes()),
        "6437b3ac38465133ffb63b75273a8db548c558465d79db03fd359c6cd5bd9d85"
    );
}

#[test]
fn test_hash_one_painted_byte_vector() {
    let h = blake3::hash(&painted(1));
    assert_eq!(
        hex(h.as_bytes()),
        "2d3adedff11b61f14c886e35afa036736dcd87a74d27b5c1510225d0f592e213"
    );
}

#[test]
fn test_to_hex_matches_bytes() {
    for &len in TEST_CASES.iter() {
        let h = blake3::hash(&painted(len));
        assert_eq!(h.to_hex().as_str(), hex(h.as_bytes()));
    }
}

#[test]
fn test_hash_equality_and_conversions() {
    let a = blake3::hash(b"foo");
    let b = blake3::hash(b"foo");
    let c = blake3::hash(b"bar");
    assert!(a == b);
    assert!(a != c);
    let bytes: [u8; OUT_LEN] = a.into();
    assert!(a == bytes);
    let back: blake3::Hash = bytes.into();
    assert!(back == a);
    assert_eq!(back.as_bytes(), &bytes);
}

#[test]
fn test_hasher_matches_hash_all_cases() {
    for &len in TEST_CASES.iter() {
        let input = painted(len);
        let mut hasher = blake3::Hasher::new();
        hasher.update(&input);
        assert_eq!(hasher.finalize(), blake3::hash(&input), "len {}", len);
        assert_eq!(hasher.count(), len as u64);
    }
}

#[test]
fn test_hasher_byte_by_byte() {
    let input = painted(3 * CHUNK_LEN + 5);
    let mut hasher = blake3::Hasher::new();
    for b in input.iter() {
        hasher.update(&[*b]);
    }
    assert_eq!(hasher.finalize(), blake3::hash(&input));
}

#[test]
fn test_compare_update_multiple() {
    let short_test_cases = &TEST_CASES[..10];
    assert_eq!(*short_test_cases.last().unwrap(), 4 * CHUNK_LEN);
    let max = 31 * CHUNK_LEN;
    let input_buf = painted(2 * max);
    for &first_update in short_test_cases {
        let first_input = &input_buf[..first_update];
        let mut test_hasher = blake3::Hasher::new();
        test_hasher.update(first_input);
        for &second_update in short_test_cases {
            let second_input = &input_buf[first_update..][..second_update];
            let total_input = &input_buf[..first_update + second_update];
            let mut test_hasher = test_hasher.clone();
            test_hasher.update(second_input);
            assert_eq!(blake3::hash(total_input), test_hasher.finalize());
        }
    }
}

#[test]
fn test_fuzz_hasher() {
    const INPUT_MAX: usize = 4 * CHUNK_LEN;
    let input_buf = painted(3 * INPUT_MAX);
    // A fixed pseudo-random sequence of update lengths.
    let mut state: u64 = 1;
    for _ in 0..100 {
        let mut hasher = blake3::Hasher::new();
        let mut total_input = 0;
        for _ in 0..3 {
            state = state.wrapping_mul(6364136223846793005).wrapping_add(1442695040888963407);
            let input_len = ((state >> 33) as usize) % (INPUT_MAX + 1);
            let input = &input_buf[total_input..][..input_len];
            hasher.update(input);
            total_input += input_len;
        }
        assert_eq!(blake3::hash(&input_buf[..total_input]), hasher.finalize());
    }
}

#[test]
fn test_keyed_hasher_matches_keyed_hash() {
    for &len in TEST_CASES.iter() {
        let input = painted(len);
        let mut hasher = blake3::Hasher::new_keyed(&TEST_KEY);
        hasher.update(&input);
        assert_eq!(hasher.finalize(), blake3::keyed_hash(&TEST_KEY, &input));
    }
}

#[test]
fn test_derive_key_hasher_matches_derive_key() {
    let context = "BLAKE3 2019-12-27 16:29:52 test vectors context";
    for &len in TEST_CASES.iter() {
        let input = painted(len);
        let mut expected = [0u8; 131];
        blake3::derive_key(context, &input, &mut expected);
        let mut hasher = blake3::Hasher::new_derive_key(context);
        hasher.update(&input);
        let mut out = [0u8; 131];
        hasher.finalize_xof().fill(&mut out);
        assert_eq!(&expected[..], &out[..]);
    }
}

#[test]
fn test_finalize_is_xof_prefix() {
    for &len in TEST_CASES.iter() {
        let input = painted(len);
        let mut hasher = blake3::Hasher::new();
        hasher.update(&input);
        let mut out = [0u8; 100];
        hasher.finalize_xof().fill(&mut out);
        assert_eq!(&out[..32], hasher.finalize().as_bytes());
    }
}

#[test]
fn test_xof_read_in_pieces_and_seek() {
    let input = painted(2 * CHUNK_LEN + 7);
    let mut hasher = blake3::Hasher::new();
    hasher.update(&input);
    let mut whole = [0u8; 300];
    hasher.finalize_xof().fill(&mut whole);

    let mut reader = hasher.finalize_xof();
    let mut first = [0u8; 37];
    let mut second = [0u8; 263];
    reader.fill(&mut first);
    assert_eq!(reader.position(), 37);
    reader.fill(&mut second);
    assert_eq!(reader.position(), 300);
    assert_eq!(&whole[..37], &first[..]);
    assert_eq!(&whole[37..], &second[..]);

    let mut reader = hasher.finalize_xof();
    reader.set_position(129);
    assert_eq!(reader.position(), 129);
    let mut tail = [0u8; 171];
    reader.fill(&mut tail);
    assert_eq!(&whole[129..], &tail[..]);
}

#[test]
fn test_finalize_does_not_change_state() {
    let input = painted(CHUNK_LEN + 1);
    let mut hasher = blake3::Hasher::new();
    hasher.update(&input[..500]);
    let early = hasher.finalize();
    assert_eq!(early, hasher.finalize());
    assert_eq!(early, blake3::hash(&input[..500]));
    hasher.update(&input[500..]);
    assert_eq!(hasher.finalize(), blake3::hash(&input));
}

#[test]
fn test_largest_power_of_two_leq() {
    let input_output = &[
        (0, 1),
        (1, 1),
        (2, 2),
        (3, 2),
        (4, 4),
        (5, 4),
        (6, 4),
        (7, 4),
        (8, 8),
        (usize::MAX, (usize::MAX >> 1) + 1),
    ];
    for &(input, output) in input_output {
        assert_eq!(
            output,
            blake3::largest_power_of_two_leq(input),
            "wrong output for n={}",
            input
        );
    }
}

#[test]
fn test_left_len() {
    let input_output = &[
        (CHUNK_LEN + 1, CHUNK_LEN),
        (2 * CHUNK_LEN - 1, CHUNK_LEN),
        (2 * CHUNK_LEN, CHUNK_LEN),
        (2 * CHUNK_LEN + 1, 2 * CHUNK_LEN),
        (4 * CHUNK_LEN - 1, 2 * CHUNK_LEN),
        (4 * CHUNK_LEN, 2 * CHUNK_LEN),
        (4 * CHUNK_LEN + 1, 4 * CHUNK_LEN),
    ];
    for &(input, output) in input_output {
        assert_eq!(blake3::left_len(input), output);
    }
}

#[test]
fn test_offset_words() {
    let offset: u64 = (1 << 32) + 2;
    assert_eq!(blake3::counter_low(offset), 2);
    assert_eq!(blake3::counter_high(offset), 1);
}

#[test]
fn test_derive_key_known_length_and_prefix() {
    let mut short = [0u8; 32];
    let mut long = [0u8; 100];
    blake3::derive_key("some context", b"key material", &mut short);
    blake3::derive_key("some context", b"key material", &mut long);
    assert_eq!(&short[..], &long[..32]);
    let mut other = [0u8; 32];
    blake3::derive_key("other context", b"key material", &mut other);
    assert_ne!(short, other);
}

#[test]
fn test_output_reader_read_and_seek() {
    let mut hasher = blake3::Hasher::new();
    hasher.update(b"read and seek");
    let mut whole = [0u8; 200];
    hasher.finalize_xof().fill(&mut whole);

    let mut reader = hasher.finalize_xof();
    let mut buf = [0u8; 50];
    assert_eq!(reader.read(&mut buf).unwrap(), 50);
    assert_eq!(&buf[..], &whole[..50]);

    assert_eq!(reader.seek(SeekFrom::Current(25)).unwrap(), 75);
    assert_eq!(reader.read(&mut buf).unwrap(), 50);
    assert_eq!(&buf[..], &whole[75..125]);

    assert_eq!(reader.seek(SeekFrom::Start(10)).unwrap(), 10);
    assert_eq!(reader.read(&mut buf).unwrap(), 50);
    assert_eq!(&buf[..], &whole[10..60]);

    assert_eq!(reader.seek(SeekFrom::End(0)).unwrap_err().kind(), ErrorKind::InvalidInput);
    assert_eq!(reader.seek(SeekFrom::Current(-100)).unwrap_err().kind(), ErrorKind::InvalidInput);
    // A failed seek leaves the position alone.
    assert_eq!(reader.position(), 60);

    // Positions past the end of the output are clamped.
    assert_eq!(reader.seek(SeekFrom::Start(u64::MAX)).unwrap(), u64::MAX);
    assert_eq!(reader.seek(SeekFrom::Current(5)).unwrap(), u64::MAX);
    // Nothing can be read at the end.
    assert_eq!(reader.read(&mut buf).unwrap(), 0);
    reader.seek(SeekFrom::Start(u64::MAX - 3)).unwrap();
    assert_eq!(reader.read(&mut buf).unwrap(), 3);
}

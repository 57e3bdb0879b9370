use blake3::reference_impl::Hasher as ReferenceHasher;

fn paint(n: usize) -> Vec<u8> {
    (0..n).map(|i| (i % 251) as u8).collect()
}

fn reference_hash(input: &[u8], out_len: usize) -> Vec<u8> {
    let mut hasher = ReferenceHasher::new();
    hasher.update(input);
    let mut out = vec![0u8; out_len];
    hasher.finalize(&mut out);
    out
}

#[test]
fn reference_impl_known_values() {
    let cases: [(usize, &str); 10] = [
        (0, "af1349b9f5f9a1a6a0404dea36dcc9499bcb25c9adc112b7cc9a93cae41f3262"),
        (1, "2d3adedff11b61f14c886e35afa036736dcd87a74d27b5c1510225d0f592e213"),
        (64, "b71fd3859344cfe7140aad3312be7723621747df07cbc76e9c4d03aede87f401"),
        (65, "c2837cf36e04bf6b214a55097eaf2b6d8199b6dc8059cf420ea8513cbf9731fa"),
        (2048, "285b78506e4915460ca41b56bf025cf977133a688843ae6578a0d43335f9d1b3"),
        (2049, "f39ea8327b86fd2e9ce51aee311750372344cbc6124fcb061883b9912e232dc5"),
        (4096, "677dba4cd37ba36b4e94ce042594c4fd0912015b41c6d7be2b7fa29760ea02a0"),
        (4097, "d4a4b7d9c95be84c611a8070c6e315b3b76177bd90763d3e3aeef1016a52d1ac"),
        (6144, "64b0334a0ddf7762f4e7d246969331183d80e94e9fc8003989dfe45f1092a6f5"),
        (8193, "f3aad460330fac6a2d1652a067238432b4e357c1d2a348d05d0ad33ca2d56ce9"),
    ];
    for (len, expected) in cases.iter() {
        assert_eq!(hex::encode(reference_hash(&paint(*len), 32)), *expected, "length {}", len);
    }
}

#[test]
fn reference_impl_keyed_and_derive_key() {
    let mut key = [0u8; 32];
    for i in 0..32 {
        key[i] = i as u8;
    }
    let mut keyed = ReferenceHasher::new_keyed(&key);
    keyed.update(&paint(3000));
    let mut out = [0u8; 32];
    keyed.finalize(&mut out);
    assert_eq!(hex::encode(out), "14437bfd12115595c66489016ca155a1b504f28ab433879e382ea3f3737ac8ce");

    let mut derive = ReferenceHasher::new_derive_key(&key);
    derive.update(&paint(100));
    derive.finalize(&mut out);
    assert_eq!(hex::encode(out), "5a1eb819c19bf2ba9e472984c99730fe5c187ca7d0a6fe4488b1ca6ac4f8ca68");
}

#[test]
fn reference_impl_extended_output() {
    let out = reference_hash(b"abc", 70);
    assert_eq!(
        hex::encode(&out),
        "1c3b2a607c69e4c49f871535f24d96bd01b1c8cc0107f255cb83410c70c1b160e0ae52aee546b14893951dc5091dc0c566c0b0a6437584618eaf7eb0ab83319b56bc1afc46e1"
    );
    assert_eq!(&reference_hash(b"abc", 32)[..], &out[..32]);
}

#[test]
fn reference_impl_incremental_matches_one_shot() {
    let input = paint(10_000);
    let expected = reference_hash(&input, 32);
    for &step in [1usize, 63, 64, 65, 2047, 2048, 2049, 5000].iter() {
        let mut hasher = ReferenceHasher::new();
        for piece in input.chunks(step) {
            hasher.update(piece);
        }
        let mut out = [0u8; 32];
        hasher.finalize(&mut out);
        assert_eq!(&out[..], &expected[..], "step {}", step);
    }
}

#[test]
fn reference_impl_finalize_keeps_state() {
    let mut hasher = ReferenceHasher::new();
    hasher.update(&paint(3000));
    let mut first = [0u8; 32];
    hasher.finalize(&mut first);
    let mut second = [0u8; 32];
    hasher.finalize(&mut second);
    assert_eq!(first, second);
    hasher.update(&paint(10));
    let mut third = [0u8; 32];
    hasher.finalize(&mut third);
    let mut all = paint(3000);
    all.extend_from_slice(&paint(10));
    assert_eq!(&third[..], &reference_hash(&all, 32)[..]);
}

#[test]
fn test_reference_impl_size() {
    // Because the Rust compiler optimizes struct layout, it's possible that
    // some future version of the compiler will produce a different size. If
    // that happens, we can either disable this test, or test for multiple
    // expected values. For now, the purpose of this test is to make sure we
    // notice if that happens.
    assert_eq!(1848, core::mem::size_of::<ReferenceHasher>());
}

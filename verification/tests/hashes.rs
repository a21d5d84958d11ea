use screen_streamer::hashes::{
    benchmark_hash, fnv1a_64, hash_adaptive_sample, hash_avx2_current, hash_avx2_simple,
    hash_first_bytes, hash_sample_pixels, hash_sse2_current, hash_xor_rotate, hash_xor_simple,
    murmur3_simple, quality_score, speed_score, splitmix64_hash, test_hash_function, wyhash_simple,
    xxhash3_64, Marks, Specimen, Trial,
};

#[test]
fn known_hashes() {
    assert_eq!(fnv1a_64(b""), 0xcbf29ce484222325);
    assert_eq!(fnv1a_64(b"a"), 0xaf63dc4c8601ec8c);
    assert_eq!(fnv1a_64(b"foobar"), 0x85944171f73967e8);
    assert_eq!(xxhash3_64(b"foobar"), xxhash_rust::xxh3::xxh3_64(b"foobar"));
    assert_eq!(hash_xor_simple(&[1, 0, 0, 0, 0, 0, 0, 0, 2]), 1 ^ 2 ^ 9);
    assert_eq!(hash_avx2_simple(&[1, 0, 0, 0, 0, 0, 0, 0, 2]), 1 ^ 2);
    assert_eq!(hash_xor_rotate(&[1, 0, 0, 0, 0, 0, 0, 0, 2]), (1u64 << 7) ^ 2 ^ 9);
}

#[test]
fn mixers_follow_their_steps() {
    let data = [7u8, 6, 5, 4, 3, 2, 1, 0, 9];
    let words = [0x0001_0203_0405_0607u64, 9];
    let mut murmur = 0u64;
    let mut split = 9u64;
    let mut wy = 9u64;
    for w in words {
        let k = w
            .wrapping_mul(0x87c37b91114253d5)
            .rotate_left(31)
            .wrapping_mul(0x4cf5ad432745937f);
        murmur = (murmur ^ k).rotate_left(27).wrapping_mul(5).wrapping_add(0x52dce729);
        split = split.wrapping_add(w);
        split = (split ^ (split >> 30)).wrapping_mul(0xbf58476d1ce4e5b9);
        split = (split ^ (split >> 27)).wrapping_mul(0x94d049bb133111eb);
        split ^= split >> 31;
        wy = (wy ^ w.wrapping_mul(0xa0761d6478bd642f)).wrapping_mul(0xe7037ed1a0b428db);
    }
    assert_eq!(murmur3_simple(&data), murmur ^ 9);
    assert_eq!(splitmix64_hash(&data), split);
    assert_eq!(wyhash_simple(&data), wy);
}

#[test]
fn samples_are_whole_pixels_a_stride_apart() {
    let data: Vec<u8> = (0..22).collect();
    // Pixels at 0, 8 and 16.
    let expected = 0x03020100u64 ^ 0x0b0a0908 ^ 0x13121110 ^ 3;
    assert_eq!(hash_sample_pixels(&data, 2), expected);
    assert_eq!(hash_adaptive_sample(&data), expected);
    assert_eq!(hash_sample_pixels(&[], 2), 0);
    assert_eq!(hash_sample_pixels(&[1, 2, 3], 1), 0);
    let large = vec![1u8; 4 * 2000];
    assert_eq!(hash_adaptive_sample(&large), hash_sample_pixels(&large, 8));
    let medium = vec![1u8; 4 * 500];
    assert_eq!(hash_adaptive_sample(&medium), hash_sample_pixels(&medium, 4));
}

#[test]
fn the_first_bytes_alone_count() {
    let data: Vec<u8> = (0..100).collect();
    assert_eq!(hash_first_bytes(&data, 40), hash_xor_rotate(&data[..40]));
    assert_eq!(hash_first_bytes(&data, 1000), hash_xor_rotate(&data));
}

#[test]
fn equal_seeds_cancel_in_the_first_vector_hash() {
    for len in [0usize, 1, 8, 15, 16, 31, 32, 33, 64, 100, 400] {
        let data: Vec<u8> = (0..len).map(|i| (i * 37) as u8).collect();
        assert_eq!(hash_sse2_current(&data), hash_xor_simple(&data), "{len} bytes");
        assert_eq!(hash_avx2_current(&data), hash_xor_simple(&data), "{len} bytes");
    }
}

#[test]
fn marks_count_misses_and_false_alarms() {
    let t = |original, variant, differs| Trial { original, variant, differs };
    let trials = vec![
        t(1, 2, true),
        t(1, 1, true),
        t(3, 4, false),
        t(1, 1, false),
    ];
    let m = test_hash_function(&trials);
    assert_eq!(m, Marks { collisions: 2, false_negatives: 1, false_positives: 1 });
    assert_eq!(quality_score(&m, 7), 1107);
    assert_eq!(speed_score(&m, 7), 10107);
}

#[test]
fn confusions_are_between_different_tiles() {
    let s = |tile: &[u8], hash, after_change| Specimen {
        tile: tile.to_vec(),
        hash,
        again: hash,
        after_change,
    };
    let specimens = vec![s(&[1], 5, 6), s(&[1], 5, 5), s(&[2], 5, 7), s(&[2], 5, 7)];
    assert_eq!(
        benchmark_hash(&specimens),
        Marks { collisions: 1, false_negatives: 1, false_positives: 0 }
    );
}

use consensus_retrieval::hasher::{codes_are_distinct, fast_range, RetrievalHasher};
use fxhash::FxBuildHasher;

const FX_SEED: u64 = 0x517c_c1b7_2722_0a95;

fn fx(words: &[u64]) -> u64 {
    let mut h: u64 = 0;
    for &w in words {
        h = (h.rotate_left(5) ^ w).wrapping_mul(FX_SEED);
    }
    h
}

fn reference_range(h: u64, max: usize) -> usize {
    ((h as u128 * max as u128) >> 64) as usize
}

#[test]
fn fast_range_takes_high_bits_of_product() {
    assert_eq!(fast_range(0, 10), 0);
    assert_eq!(fast_range(u64::MAX, 10), 9);
    assert_eq!(fast_range(1 << 63, 10), 5);
    assert_eq!(fast_range(u64::MAX, 0), 0);
    assert_eq!(fast_range(0x4000_0000_0000_0000, 8), 2);
}

#[test]
fn fast_range_stays_below_max() {
    for max in 1..50usize {
        for k in 0..200u64 {
            let seed = k.wrapping_mul(0x9E37_79B9_7F4A_7C15);
            assert!(fast_range(seed, max) < max);
        }
    }
}

#[test]
fn hash_to_group_hashes_tag_and_key_with_fxhash() {
    let hasher = RetrievalHasher::new_with_hasher(FxBuildHasher::default());
    for key in [0u64, 1, 42, 0xdead_beef, u64::MAX] {
        let expected = reference_range(fx(&[0, key]), 17);
        assert_eq!(hasher.hash_to_group(key, 17), expected);
    }
}

#[test]
fn hash_to_task_hashes_the_number_of_tasks_too() {
    let hasher = RetrievalHasher::new_with_hasher(FxBuildHasher::default());
    for key in [0u64, 7, 1234567, u64::MAX - 3] {
        for n in [1usize, 2, 5, 64] {
            let expected = reference_range(fx(&[1, key, n as u64]), n);
            assert_eq!(hasher.hash_to_task(key, n), expected);
            assert!(hasher.hash_to_task(key, n) < n);
        }
    }
}

#[test]
fn hash_for_seed_hashes_key_and_seed() {
    let hasher = RetrievalHasher::new_with_hasher(FxBuildHasher::default());
    for (key, seed) in [(0u64, 0u64), (3, 9), (u64::MAX, 1 << 40)] {
        assert_eq!(hasher.hash_for_seed(key, seed), fx(&[2, key, seed]));
    }
    assert_ne!(hasher.hash_for_seed(5, 6), hasher.hash_for_seed(5, 7));
}

#[test]
fn distinct_codes_are_detected() {
    assert!(codes_are_distinct(&vec![]));
    assert!(codes_are_distinct(&vec![1, 2, 3, u64::MAX]));
    assert!(!codes_are_distinct(&vec![1, 2, 1]));
    assert!(!codes_are_distinct(&vec![7, 7]));
}

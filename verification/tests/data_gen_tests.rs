use ahash::RandomState;
use rand::rngs::StdRng;
use rand::{RngExt, SeedableRng};
use consensus_retrieval::data_gen::{seeded_state, unique_keys_u64, unique_keys_with};
use std::collections::HashSet;
use std::hash::BuildHasher;

#[test]
fn unique_keys_are_distinct() {
    let hasher = RandomState::with_seeds(1, 2, 3, 4);
    let keys = unique_keys_u64(100, &hasher).unwrap();
    assert_eq!(keys.len(), 100);
    let set: HashSet<u64> = keys.iter().copied().collect();
    assert_eq!(set.len(), 100);
}

#[test]
fn unique_keys_hash_the_indices() {
    let hasher = RandomState::with_seeds(9, 8, 7, 6);
    let keys = unique_keys_u64(30, &hasher).unwrap();
    for (i, &key) in keys.iter().enumerate() {
        assert_eq!(key, hasher.hash_one(i));
    }
}

#[test]
fn unique_keys_of_nothing() {
    let hasher = RandomState::with_seeds(1, 1, 1, 1);
    assert_eq!(unique_keys_u64(0, &hasher), Some(vec![]));
}

#[test]
fn same_seed_gives_same_keys() {
    let (h1, _) = seeded_state(7);
    let (h2, _) = seeded_state(7);
    assert_eq!(unique_keys_u64(20, &h1), unique_keys_u64(20, &h2));
    let (h3, _) = seeded_state(8);
    assert_ne!(unique_keys_u64(20, &h1), unique_keys_u64(20, &h3));
}

#[test]
fn unique_keys_of_one_key() {
    let (hasher, _) = seeded_state(11);
    let keys = unique_keys_u64(1, &hasher).unwrap();
    assert_eq!(keys.len(), 1);
}

#[test]
fn unique_keys_take_the_first_new_candidate() {
    let keys = unique_keys_with(3, |x: usize| (x / 2) as u64);
    assert_eq!(keys, Some(vec![0, 2, 1]));
}

#[test]
fn unique_keys_of_an_injective_hash_are_the_hashes() {
    let keys = unique_keys_with(5, |x: usize| x as u64 * 7);
    assert_eq!(keys, Some(vec![0, 7, 14, 21, 28]));
}

#[test]
fn unique_keys_follow_the_hasher() {
    let (hasher, _) = seeded_state(3);
    let direct = unique_keys_with(40, |x: usize| hasher.hash_one(x));
    assert_eq!(unique_keys_u64(40, &hasher), direct);
}

#[test]
fn the_sampling_generator_is_the_one_seeded_with_the_seed() {
    let (_, mut a) = seeded_state(7);
    let mut b = StdRng::seed_from_u64(7);
    for _ in 0..16 {
        assert_eq!(a.random::<u64>(), b.random::<u64>());
    }
}

#[test]
fn the_hasher_is_keyed_by_the_first_draws_of_the_seeded_generator() {
    let (hasher, _) = seeded_state(9);
    let mut g = StdRng::seed_from_u64(9);
    let k0: u64 = g.random();
    let k1: u64 = g.random();
    let k2: u64 = g.random();
    let k3: u64 = g.random();
    let expected = RandomState::with_seeds(k0, k1, k2, k3);
    for x in 0..10u64 {
        assert_eq!(hasher.hash_one(x), expected.hash_one(x));
    }
}

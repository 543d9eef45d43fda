
use consensus_retrieval::consensus::{ConsensusVecManager, ConsensusVector};
use consensus_retrieval::hasher::Seed;

#[test]
fn test_cache() {
    let mut cache = ConsensusVecManager::new(100);
    let mut val: Seed = Seed::MAX;
    cache.rotate_in(&mut val);
    println!("{val}");
    cache.rotate_in(&mut val);
    println!("{val}");
    for _i in 0..64 {
        cache.rotate_in(&mut val);
    }
    println!("{val}");
    cache.rotate_in(&mut val);
    println!("{val}");
    val = 0;
    cache.rotate_out(&mut val);
    println!("{val}");
    val = 11;
    let vec = cache.dismantle(val);
    println!("{}", vec.len());
    assert_eq!(vec.len(), 66 + 63);
    assert_eq!(vec.load_be(0, 64), u64::MAX);
    assert_eq!(vec.load_be(64, 2), 0);
    assert_eq!(vec.load_be(66, 63), 11 >> 1);
}

#[test]
fn rotate_out_undoes_rotate_in() {
    let mut cache = ConsensusVecManager::new(400);
    let mut val: Seed = 0x8000_0000_0000_0001;
    for _ in 0..130 {
        cache.rotate_in(&mut val);
        val |= 1;
    }
    assert_eq!(cache.current_task_idx(), 130);
    let before = val;
    cache.rotate_in(&mut val);
    assert_eq!(cache.current_task_idx(), 131);
    assert_eq!(val, before << 1);
    assert!(!cache.rotate_out(&mut val));
    assert_eq!(val, before);
    assert_eq!(cache.current_task_idx(), 130);
}

#[test]
fn rotate_out_at_root_changes_nothing() {
    let mut cache = ConsensusVecManager::new(10);
    let mut val: Seed = 42;
    assert!(cache.rotate_out(&mut val));
    assert_eq!(val, 42);
    assert_eq!(cache.current_task_idx(), 0);
}

fn check_value(k: usize, s: u64) -> bool {
    ((s.wrapping_mul(0x9E37_79B9_7F4A_7C15) >> (60 + k % 4)) & 1) as usize == (k / 4) % 2
}

#[test]
fn consensus_search_finds_accepted_seeds() {
    let tasks: Vec<Vec<usize>> = vec![vec![0], vec![], vec![1], vec![2, 3], vec![4], vec![], vec![5], vec![6]];
    let cv = ConsensusVector::new(&tasks, |k: usize, s: u64| check_value(k, s));
    assert_eq!(cv.variable_part_bit_size(), tasks.len() + 63);
    for (t, keys) in tasks.iter().enumerate() {
        let seed = cv.get_seed_at_task(t);
        for &k in keys {
            assert!(check_value(k, seed), "task {t} key {k} seed {seed}");
        }
    }
    assert!(cv.hash_evaluations() >= 7);
}

#[test]
fn consensus_search_without_tasks() {
    let tasks: Vec<Vec<usize>> = Vec::new();
    let cv = ConsensusVector::new(&tasks, |_k: usize, _s: u64| true);
    assert_eq!(cv.variable_part_bit_size(), 63);
    assert_eq!(cv.count_ones(), 0);
    assert_eq!(cv.hash_evaluations(), 0);
}

#[test]
fn hash_evaluations_count_every_question() {
    let tasks: Vec<Vec<usize>> = vec![vec![0, 1], vec![2], vec![], vec![3, 4, 5], vec![6]];
    let asked = std::cell::Cell::new(0u64);
    let cv = ConsensusVector::new(&tasks, |k: usize, s: u64| {
        asked.set(asked.get() + 1);
        check_value(k, s)
    });
    assert_eq!(cv.hash_evaluations(), asked.get());
    assert!(cv.hash_evaluations() >= 7);
}

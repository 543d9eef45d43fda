use consensus_retrieval::consensus::get_consensus_tasks;
use consensus_retrieval::hasher::RetrievalHasher;
use consensus_retrieval::insertion_vec::{keys_per_group, GroupBounds, InsertionVec};
use fxhash::FxBuildHasher;

#[test]
fn group_bounds_follow_insertion_counts() {
    let iv = InsertionVec::new(&vec![0, 2, 1], 2, 3);
    assert_eq!(iv.num_groups(), 3);
    assert_eq!(iv.group_bounds(0), Some(GroupBounds { start: 0, width: 2 }));
    assert_eq!(iv.group_bounds(1), Some(GroupBounds { start: 2, width: 8 }));
    assert_eq!(iv.group_bounds(2), Some(GroupBounds { start: 10, width: 5 }));
    assert_eq!(iv.group_bounds(3), None);
    assert_eq!(iv.total_num_tasks(), 15);
    assert_eq!(iv.raw_insertion_vec_bit_size(), 6);
}

#[test]
fn group_bounds_tile_task_space() {
    let counts: Vec<usize> = (0..200).map(|g| (g * 7 + 3) % 5).collect();
    let b = 4;
    let beta = 2;
    let iv = InsertionVec::new(&counts, b, beta);
    let mut expected_next_group_start = 0;
    for g in 0..iv.num_groups() {
        let bounds = iv.group_bounds(g).unwrap();
        assert_eq!(bounds.start, expected_next_group_start, "group {g}");
        assert_eq!(bounds.width, b + counts[g] * beta);
        assert!(bounds.width >= b);
        expected_next_group_start += bounds.width;
    }
    assert_eq!(expected_next_group_start, iv.total_num_tasks());
}

#[test]
fn groups_without_insertions() {
    let iv = InsertionVec::new(&vec![0; 5], 3, 10);
    for g in 0..5 {
        assert_eq!(iv.group_bounds(g), Some(GroupBounds { start: 3 * g, width: 3 }));
    }
    assert_eq!(iv.total_num_tasks(), 15);
}

#[test]
fn keys_are_sorted_into_their_groups() {
    let hasher = RetrievalHasher::new_with_hasher(FxBuildHasher::default());
    let codes: Vec<u64> = (0..50u64).map(|i| i.wrapping_mul(0x9E37_79B9_7F4A_7C15)).collect();
    let groups = keys_per_group(&hasher, &codes, 7);
    assert_eq!(groups.len(), 7);
    let mut seen = vec![false; codes.len()];
    for (g, members) in groups.iter().enumerate() {
        for w in members.windows(2) {
            assert!(w[0] < w[1]);
        }
        for &i in members {
            assert_eq!(hasher.hash_to_group(codes[i], 7), g);
            assert!(!seen[i]);
            seen[i] = true;
        }
    }
    assert!(seen.iter().all(|&s| s));
}

#[test]
fn keys_are_sorted_into_their_tasks() {
    let hasher = RetrievalHasher::new_with_hasher(FxBuildHasher::default());
    let codes: Vec<u64> = (0..80u64).map(|i| i * 31 + 5).collect();
    let iv = InsertionVec::new(&vec![1, 0, 2, 1], 5, 2);
    let tasks = get_consensus_tasks(&codes, &iv, &hasher);
    assert_eq!(tasks.len(), iv.total_num_tasks());
    let mut count = 0;
    for (i, &code) in codes.iter().enumerate() {
        let g = hasher.hash_to_group(code, iv.num_groups());
        let bounds = iv.group_bounds(g).unwrap();
        let t = bounds.start + hasher.hash_to_task(code, bounds.width);
        assert!(tasks[t].contains(&i));
    }
    for members in &tasks {
        count += members.len();
    }
    assert_eq!(count, codes.len());
}

#[test]
fn sizes_of_the_insertion_vector() {
    let iv = InsertionVec::new(&vec![1, 0, 2], 2, 3);
    let bits = iv.variable_part_bit_size();
    assert_eq!(bits % 8, 0);
    assert!(bits >= iv.raw_insertion_vec_bit_size());
    assert_eq!(iv.space_in_bytes(), bits / 8 + 3 * std::mem::size_of::<usize>());
}

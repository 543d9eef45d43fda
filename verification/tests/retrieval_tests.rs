use consensus_retrieval::hasher::{fast_range, RetrievalHasher};
use consensus_retrieval::insertion_vec::InsertionVec;
use consensus_retrieval::ConsensusRetrieval;
use fxhash::FxBuildHasher;

fn build(codes: &Vec<u64>, values: &Vec<usize>, sigma: usize) -> ConsensusRetrieval {
    let iv = InsertionVec::new(&vec![2; 10], 10, 3);
    let hasher = RetrievalHasher::new_with_hasher(FxBuildHasher::default());
    ConsensusRetrieval::new(codes, iv, hasher, |i: usize, h: u64| {
        fast_range(h, sigma) == values[i]
    })
}

#[test]
fn queries_give_back_the_values() {
    let codes: Vec<u64> = (0..60u64).map(|i| i.wrapping_mul(0x2545_F491_4F6C_DD1D) ^ 77).collect();
    let values: Vec<usize> = (0..60).map(|i| i % 3).collect();
    let retrieval = build(&codes, &values, 3);
    for (i, &code) in codes.iter().enumerate() {
        assert_eq!(fast_range(retrieval.query_hash(code), 3), values[i], "key {i}");
    }
    assert_eq!(retrieval.num_keys(), 60);
    assert_eq!(retrieval.num_tasks(), 160);
    assert_eq!(retrieval.consensus_vec_bit_size(), 160 + 63);
    assert_eq!(retrieval.raw_insertion_vec_bit_size(), 30);
    assert!(retrieval.hash_evaluations() >= 60);
    assert!(retrieval.consensus_vec_count_ones() <= 160 + 63);
}

#[test]
fn small_retrieval_with_skewed_values() {
    let codes: Vec<u64> = vec![0, 1, 2, 3];
    let values: Vec<usize> = vec![0, 1, 0, 0];
    let retrieval = build(&codes, &values, 2);
    for (i, &code) in codes.iter().enumerate() {
        assert_eq!(fast_range(retrieval.query_hash(code), 2), values[i]);
    }
}

#[test]
fn bit_sizes_of_the_parts() {
    let codes: Vec<u64> = (0..30u64).map(|i| i.wrapping_mul(0x9E37_79B9_7F4A_7C15) ^ 5).collect();
    let values: Vec<usize> = (0..30).map(|i| i % 2).collect();
    let retrieval = build(&codes, &values, 2);
    assert_eq!(retrieval.insertion_vec_bit_size() % 8, 0);
    assert!(retrieval.insertion_vec_bit_size() >= retrieval.raw_insertion_vec_bit_size());
    assert_eq!(
        retrieval.variable_part_bit_size(),
        retrieval.insertion_vec_bit_size() + retrieval.consensus_vec_bit_size()
    );
    assert!(retrieval.hash_evaluations() >= 30);
}

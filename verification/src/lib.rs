//! Integer core of a compressed static function built with the consensus
//! technique: the hashing of keys to groups and tasks, the insertion vector
//! that places groups in the task space, and the consensus vector of
//! overlapping seeds that is searched with backtracking.
use vstd::prelude::*;

pub mod bits;
pub mod consensus;
pub mod data_gen;
pub mod dfs;
pub mod hasher;
pub mod insertion_vec;
pub mod kv_format;
pub mod select;

use crate::bits::max_bits;
use crate::consensus::{
    ConsensusVector, get_consensus_tasks, is_deterministic, is_solution, is_total, key_accepts,
    seed_at, task_of, task_satisfied, lemma_task_of_in_range,
};
use crate::hasher::{HashCode, RetrievalHasher, Seed, seed_hash};
use crate::insertion_vec::{InsertionVec, is_bucketing};
use crate::bits::be_value;
use vstd::arithmetic::div_mod::{lemma_mod_add_multiples_vanish, lemma_small_mod};

verus! {

/// Every answer that `value_ok` can give for key `key` and hash `h` is
/// `true`: the value sampled from `h` is the value of the key.
pub open spec fn value_accepts<F: Fn(usize, u64) -> bool>(value_ok: F, key: usize, h: u64) -> bool {
    forall|r: bool| call_ensures(value_ok, (key, h), r) ==> r
}

/// `bits` is a consensus vector for the keys `codes` placed in tasks by
/// `iv`: under the seed of its task, the hash of every key samples the
/// key's value.
pub open spec fn is_value_solution<F: Fn(usize, u64) -> bool>(
    value_ok: F,
    codes: Seq<HashCode>,
    iv: InsertionVec,
    bits: Seq<bool>,
) -> bool {
    &&& bits.len() == iv.total_tasks() + 63
    &&& forall|i: int|
        0 <= i < codes.len() ==> #[trigger] value_accepts(
            value_ok,
            i as usize,
            seed_hash(codes[i], seed_at(bits, task_of(iv, codes[i])) as u64),
        )
}

/// A retrieval structure over 64-bit key codes: the insertion vector that
/// places every key in a task, and the consensus vector that holds the
/// seed of every task. A query yields the hash from which the value of the
/// key is sampled.
pub struct ConsensusRetrieval {
    insertion_vec: InsertionVec,
    consensus_vector: ConsensusVector,
    hasher: RetrievalHasher,
    num_keys: usize,
}

impl ConsensusRetrieval {
    /// The insertion vector.
    pub closed spec fn insertion(&self) -> InsertionVec {
        self.insertion_vec
    }

    /// The bits of the consensus vector.
    pub closed spec fn consensus_bits(&self) -> Seq<bool> {
        self.consensus_vector@
    }

    /// The number of keys the structure was built for.
    pub closed spec fn spec_num_keys(&self) -> usize {
        self.num_keys
    }

    /// The number of times the construction asked whether a seed fits a
    /// key (saturating at `u64::MAX`).
    pub closed spec fn spec_hash_evaluations(&self) -> u64 {
        self.consensus_vector.spec_hash_evaluations()
    }

    /// The insertion vector is well formed, has a group, and the consensus
    /// vector covers its tasks.
    pub closed spec fn wf(&self) -> bool {
        &&& self.insertion_vec.wf()
        &&& self.insertion_vec@.len() > 0
        &&& self.consensus_vector@.len() == self.insertion_vec.total_tasks() + 63
    }

    /// The hash that a query for `key` yields: the hash of the key under
    /// the seed of its task.
    pub open spec fn query_hash_spec(&self, key: HashCode) -> u64 {
        seed_hash(key, seed_at(self.consensus_bits(), task_of(self.insertion(), key)) as u64)
    }

    /// Builds the structure for the keys `codes` (distinct 64-bit codes),
    /// placed in tasks by `insertion_vec`. `value_ok(i, h)` says whether
    /// the hash `h` samples the value of key `i`. The consensus vector is
    /// the least one (read as a big-endian number) under which every key's
    /// hash samples its value.
    pub fn new<F: Fn(usize, u64) -> bool>(
        codes: &Vec<HashCode>,
        insertion_vec: InsertionVec,
        hasher: RetrievalHasher,
        value_ok: F,
    ) -> (r: Self)
        requires
            insertion_vec.wf(),
            insertion_vec@.len() > 0,
            insertion_vec.total_tasks() + 63 <= max_bits(),
            is_total(value_ok),
            is_deterministic(value_ok),
            exists|b: Seq<bool>| is_value_solution(value_ok, codes@, insertion_vec, b),
        ensures
            r.wf(),
            r.insertion() == insertion_vec,
            r.spec_num_keys() == codes.len(),
            r.spec_hash_evaluations() == u64::MAX || r.spec_hash_evaluations() >= codes.len(),
            is_value_solution(value_ok, codes@, insertion_vec, r.consensus_bits()),
            forall|b: Seq<bool>|
                is_value_solution(value_ok, codes@, insertion_vec, b) ==> be_value(
                    r.consensus_bits(),
                ) <= be_value(b),
            forall|i: int|
                0 <= i < codes.len() ==> #[trigger] value_accepts(
                    value_ok,
                    i as usize,
                    r.query_hash_spec(codes[i]),
                ),
    {
        let tasks = get_consensus_tasks(codes, &insertion_vec, &hasher);
        let ghost f = |i: int| task_of(insertion_vec, codes[i]);
        let value_ok_ref = &value_ok;
        let hasher_ref = &hasher;
        let key_ok = |k: usize, s: Seed| -> (ok: bool)
            requires
                is_total(value_ok_ref),
            ensures
                k < codes.len() ==> call_ensures(
                    value_ok_ref,
                    (k, seed_hash(codes[k as int], s)),
                    ok,
                ),
                k >= codes.len() ==> !ok,
            {
                if k < codes.len() {
                    value_ok_ref(k, hasher_ref.hash_for_seed(codes[k], s))
                } else {
                    false
                }
            };
        proof {
            assert forall|k: usize, s: Seed| #[trigger] call_requires(key_ok, (k, s)) by {}
            assert forall|k: usize, s: Seed, r1: bool, r2: bool|
                call_ensures(key_ok, (k, s), r1) && call_ensures(key_ok, (k, s), r2) implies r1
                == r2 by {
                if k < codes.len() {
                    assert(call_ensures(value_ok, (k, seed_hash(codes[k as int], s)), r1));
                    assert(call_ensures(value_ok, (k, seed_hash(codes[k as int], s)), r2));
                }
            }
            let b = choose|b: Seq<bool>| is_value_solution(value_ok, codes@, insertion_vec, b);
            lemma_value_solution_is_solution(value_ok, key_ok, codes@, insertion_vec, tasks@, b);
        }
        let consensus_vector = ConsensusVector::new(&tasks, key_ok);
        let r = ConsensusRetrieval { insertion_vec, consensus_vector, hasher, num_keys: codes.len() };
        proof {
            lemma_observed_solution_is_value_solution(
                value_ok,
                key_ok,
                codes@,
                insertion_vec,
                tasks@,
                consensus_vector@,
            );
            assert forall|b: Seq<bool>| is_value_solution(value_ok, codes@, insertion_vec, b) implies be_value(
                r.consensus_bits(),
            ) <= be_value(b) by {
                lemma_value_solution_is_solution(value_ok, key_ok, codes@, insertion_vec, tasks@, b);
            }
            assert forall|i: int| 0 <= i < codes.len() implies #[trigger] value_accepts(
                value_ok,
                i as usize,
                r.query_hash_spec(codes[i]),
            ) by {
                assert(value_accepts(
                    value_ok,
                    i as usize,
                    seed_hash(codes[i], seed_at(consensus_vector@, task_of(insertion_vec, codes[i])) as u64),
                ));
            }
        }
        r
    }

    /// The hash from which the value of `key` is sampled: the key's group
    /// and task follow from its hashes and the insertion vector, the task's
    /// seed from the consensus vector.
    pub fn query_hash(&self, key: HashCode) -> (r: u64)
        requires
            self.wf(),
        ensures
            r == self.query_hash_spec(key),
    {
        proof {
            lemma_task_of_in_range(self.insertion_vec, key);
        }
        let group = self.hasher.hash_to_group(key, self.insertion_vec.num_groups());
        let group_bounds = match self.insertion_vec.group_bounds(group) {
            Some(gb) => gb,
            None => {
                proof {
                    assert(false);
                }
                return 0;
            },
        };
        let in_group_offset = self.hasher.hash_to_task(key, group_bounds.width);
        proof {
            crate::insertion_vec::lemma_wf_facts(&self.insertion_vec);
            reveal(task_of);
            assert(group_bounds.start + in_group_offset == task_of(self.insertion_vec, key));
        }
        let consensus_idx = group_bounds.start + in_group_offset;
        let seed = self.consensus_vector.get_seed_at_task(consensus_idx);
        self.hasher.hash_for_seed(key, seed)
    }

    /// The number of keys.
    pub fn num_keys(&self) -> (r: usize)
        ensures
            r == self.spec_num_keys(),
    {
        self.num_keys
    }

    /// The number of tasks.
    pub fn num_tasks(&self) -> (r: usize)
        requires
            self.wf(),
        ensures
            r == self.insertion().total_tasks(),
    {
        self.insertion_vec.total_num_tasks()
    }

    /// The number of times the construction asked whether a seed fits a
    /// key (saturating at `u64::MAX`).
    pub fn hash_evaluations(&self) -> (r: u64)
        ensures
            r == self.spec_hash_evaluations(),
    {
        self.consensus_vector.hash_evaluations()
    }

    /// Bits used by the insertion vector: the unary-coded insertion counts
    /// and their select index (wrapping at `usize::MAX`), in whole bytes.
    /// Unless they wrap, they are at least the bits of the unary code
    /// alone.
    pub fn insertion_vec_bit_size(&self) -> (r: usize)
        ensures
            r == self.insertion().variable_bits(),
            r % 8 == 0,
            self.wf() && self.insertion().spec_select_bytes() * 8 <= usize::MAX ==> r
                >= crate::insertion_vec::psum(self.insertion()@, self.insertion()@.len() as int)
                + self.insertion()@.len(),
    {
        self.insertion_vec.variable_part_bit_size()
    }

    /// Bits of the unary-coded insertion counts without the select index.
    pub fn raw_insertion_vec_bit_size(&self) -> (r: usize)
        requires
            self.wf(),
        ensures
            r == crate::insertion_vec::psum(self.insertion()@, self.insertion()@.len() as int)
                + self.insertion()@.len(),
    {
        self.insertion_vec.raw_insertion_vec_bit_size()
    }

    /// Bits of the consensus vector: one per task and 63 more.
    pub fn consensus_vec_bit_size(&self) -> (r: usize)
        requires
            self.wf(),
        ensures
            r == self.insertion().total_tasks() + 63,
    {
        self.consensus_vector.variable_part_bit_size()
    }

    /// Bits of the parts that grow with the number of keys: those of the
    /// insertion vector and those of the consensus vector (wrapping at
    /// `usize::MAX`).
    pub fn variable_part_bit_size(&self) -> (r: usize)
        ensures
            r == (self.insertion().variable_bits() + self.consensus_bits().len()) % (usize::MAX as int
                + 1),
    {
        let insertion_bits = self.insertion_vec.variable_part_bit_size();
        let consensus_bits = self.consensus_vector.variable_part_bit_size();
        proof {
            let m = usize::MAX as int + 1;
            let t = insertion_bits as int + consensus_bits as int;
            if t <= usize::MAX {
                lemma_small_mod(t as nat, m as nat);
            } else {
                lemma_small_mod((t - m) as nat, m as nat);
                lemma_mod_add_multiples_vanish(t - m, m);
            }
        }
        insertion_bits.wrapping_add(consensus_bits)
    }

    /// The number of set bits of the consensus vector.
    pub fn consensus_vec_count_ones(&self) -> (r: usize)
        ensures
            r == crate::bits::count_true(self.consensus_bits()),
    {
        self.consensus_vector.count_ones()
    }
}

/// The bits of the parts that grow with the number of keys, as
/// `variable_part_bit_size` gives them, are the bits that
/// `insertion_vec_bit_size` and `consensus_vec_bit_size` give, added and
/// wrapped at `usize::MAX`.
pub proof fn lemma_variable_part_is_sum(r: &ConsensusRetrieval)
    requires
        r.wf(),
    ensures
        (r.insertion().variable_bits() + r.consensus_bits().len()) % (usize::MAX as int + 1) == (
        r.insertion().variable_bits() + (r.insertion().total_tasks() + 63)) % (usize::MAX as int
            + 1),
{
}

/// A consensus vector under which every key's hash samples its value is
/// one under which every task's seed is accepted by `key_ok`, when
/// `key_ok(k, s)` asks `value_ok` about key `k` and the hash of its code
/// under `s`.
proof fn lemma_value_solution_is_solution<F: Fn(usize, u64) -> bool, G: Fn(usize, Seed) -> bool>(
    value_ok: F,
    key_ok: G,
    codes: Seq<HashCode>,
    iv: InsertionVec,
    tasks: Seq<Vec<usize>>,
    b: Seq<bool>,
)
    requires
        iv.wf(),
        iv@.len() > 0,
        tasks.len() == iv.total_tasks(),
        is_bucketing(tasks, codes.len() as int, |i: int| task_of(iv, codes[i])),
        is_value_solution(value_ok, codes, iv, b),
        forall|k: usize, s: Seed, ok: bool|
            k < codes.len() && #[trigger] call_ensures(key_ok, (k, s), ok) ==> call_ensures(
                value_ok,
                (k, seed_hash(codes[k as int], s)),
                ok,
            ),
    ensures
        is_solution(key_ok, tasks, b),
{
    assert forall|t: int| 0 <= t < tasks.len() implies #[trigger] task_satisfied(
        key_ok,
        tasks[t],
        seed_at(b, t) as u64,
    ) by {
        assert forall|j: int| 0 <= j < tasks[t].len() implies #[trigger] key_accepts(
            key_ok,
            tasks[t][j],
            seed_at(b, t) as u64,
        ) by {
            let i = tasks[t][j] as int;
            assert(0 <= i < codes.len() && task_of(iv, codes[i]) == t);
            assert(value_accepts(
                value_ok,
                i as usize,
                seed_hash(codes[i], seed_at(b, task_of(iv, codes[i])) as u64),
            ));
        }
    }
}

/// Key `i` is listed in the task of its code.
proof fn lemma_bucket_member(tasks: Seq<Vec<usize>>, codes: Seq<HashCode>, iv: InsertionVec, i: int)
    requires
        0 <= i < codes.len(),
        is_bucketing(tasks, codes.len() as int, |i: int| task_of(iv, codes[i])),
    ensures
        0 <= task_of(iv, codes[i]) < tasks.len(),
        tasks[task_of(iv, codes[i])]@.contains(i as usize),
{
    let f = |i: int| task_of(iv, codes[i]);
    assert(0 <= f(i) < tasks.len() && tasks[f(i)]@.contains(i as usize));
}

/// Under a consensus vector whose every task's seed `key_ok` answered
/// `true` for, the hash of every key samples its value.
#[verifier::spinoff_prover]
#[verifier::rlimit(40)]
proof fn lemma_observed_solution_is_value_solution<
    F: Fn(usize, u64) -> bool,
    G: Fn(usize, Seed) -> bool,
>(
    value_ok: F,
    key_ok: G,
    codes: Seq<HashCode>,
    iv: InsertionVec,
    tasks: Seq<Vec<usize>>,
    bits: Seq<bool>,
)
    requires
        iv.wf(),
        iv@.len() > 0,
        codes.len() <= usize::MAX,
        tasks.len() == iv.total_tasks(),
        bits.len() == iv.total_tasks() + 63,
        is_bucketing(tasks, codes.len() as int, |i: int| task_of(iv, codes[i])),
        crate::consensus::is_observed_solution(key_ok, tasks, bits),
        is_deterministic(value_ok),
        forall|k: usize, s: Seed, ok: bool|
            k < codes.len() && #[trigger] call_ensures(key_ok, (k, s), ok) ==> call_ensures(
                value_ok,
                (k, seed_hash(codes[k as int], s)),
                ok,
            ),
    ensures
        is_value_solution(value_ok, codes, iv, bits),
{
    assert forall|i: int| 0 <= i < codes.len() implies #[trigger] value_accepts(
        value_ok,
        i as usize,
        seed_hash(codes[i], seed_at(bits, task_of(iv, codes[i])) as u64),
    ) by {
        let t = task_of(iv, codes[i]);
        lemma_bucket_member(tasks, codes, iv, i);
        assert(tasks[t]@.contains(i as usize));
        let j = choose|j: int| 0 <= j < tasks[t]@.len() && #[trigger] tasks[t]@[j] == i as usize;
        lemma_task_of_in_range(iv, codes[i]);
        assert(crate::consensus::task_observed(key_ok, tasks[t], seed_at(bits, t) as u64));
        let s = seed_at(bits, t) as u64;
        let k = tasks[t][j];
        assert(k == i as usize);
        assert(call_ensures(key_ok, (k, s), true));
        assert(k < codes.len());
        assert(k as int == i);
        assert(call_ensures(value_ok, (k, seed_hash(codes[k as int], s)), true));
        let h = seed_hash(codes[i], s);
        assert(call_ensures(value_ok, (i as usize, h), true));
        assert forall|rr: bool| #[trigger] call_ensures(value_ok, (i as usize, h), rr) implies rr by {}
    }
}

} // verus!

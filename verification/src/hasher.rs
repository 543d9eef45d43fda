//! Hashing of key codes to groups, to tasks within a group, and to the
//! 64-bit values from which a value is sampled, with `fxhash`.
use vstd::prelude::*;
use fxhash::{FxBuildHasher, FxHasher};
use std::hash::{BuildHasher, BuildHasherDefault, Hash, Hasher};
use std::collections::HashSet;

verus! {

/// Type of a seed of the consensus vector.
pub type Seed = u64;

/// Type of the 64-bit code that stands for a key.
pub type HashCode = u64;

/// `2^64`, the size of the seed space.
pub open spec fn seed_space() -> int {
    0x1_0000_0000_0000_0000
}

/// Multiply-shift reduction of a 64-bit hash value to the range `0..max`.
#[verifier::opaque]
pub open spec fn fast_range_spec(seed: u64, max: usize) -> int {
    (seed as int * max as int) / seed_space()
}

/// The multiply-shift reduction lands in `0..max` for a positive `max`.
pub proof fn lemma_fast_range_bound(seed: u64, max: usize)
    ensures
        max > 0 ==> 0 <= fast_range_spec(seed, max) < max,
        max == 0 ==> fast_range_spec(seed, max) == 0,
{
    reveal(fast_range_spec);
    assert(seed as int * max as int <= (seed_space() - 1) * max as int) by (nonlinear_arith)
        requires
            seed < seed_space(),
            max >= 0,
    ;
    assert(0 <= seed as int * max as int) by (nonlinear_arith)
        requires
            seed >= 0,
            max >= 0,
    ;
    if max > 0 {
        assert(fast_range_spec(seed, max) < max) by (nonlinear_arith)
            requires
                fast_range_spec(seed, max) == (seed as int * max as int) / seed_space(),
                seed as int * max as int <= (seed_space() - 1) * max as int,
                max > 0,
        ;
    }
}

/// Maps `seed` uniformly into `0..max` by taking the high 64 bits of the
/// 128-bit product `seed * max`.
pub fn fast_range(seed: Seed, max: usize) -> (r: usize)
    ensures
        r == fast_range_spec(seed, max),
        max > 0 ==> r < max,
        max == 0 ==> r == 0,
{
    proof {
        assert((seed as int) * (max as int) <= u128::MAX) by (nonlinear_arith)
            requires seed <= u64::MAX, max <= u64::MAX;
    }
    let prod: u128 = (seed as u128) * (max as u128);
    let r: u128 = prod >> 64u32;
    proof {
        reveal(fast_range_spec);
        assert(prod >> 64u32 == prod / 0x1_0000_0000_0000_0000u128) by (bit_vector);
        assert(seed as int * max as int <= (seed_space() - 1) * max as int) by (nonlinear_arith)
            requires seed < seed_space(), max >= 0;
        assert(r as int <= max as int) by (nonlinear_arith)
            requires r as int == (seed as int * max as int) / seed_space(),
                seed as int * max as int <= (seed_space() - 1) * max as int,
                max >= 0;
        if max > 0 {
            assert((r as int) < (max as int)) by (nonlinear_arith)
                requires r as int == (seed as int * max as int) / seed_space(),
                    seed as int * max as int <= (seed_space() - 1) * max as int,
                    max > 0;
        }
    }
    r as usize
}

#[verifier::external_type_specification]
#[verifier::external_body]
pub struct ExFxHasher(FxHasher);

#[verifier::external_type_specification]
#[verifier::external_body]
#[verifier::reject_recursive_types(H)]
pub struct ExBuildHasherDefault<H>(BuildHasherDefault<H>);

/// One step of `FxHasher` on a 64-bit platform: rotate the state left by
/// five bits, xor the word in, multiply by the fixed odd constant.
pub open spec fn fx_step64(h: u64, w: u64) -> u64 {
    ((((h << 5u64) | (h >> 59u64)) ^ w) as int * 0x517cc1b727220a95int
        % 0x1_0000_0000_0000_0000int) as u64
}

/// One step of `FxHasher` on a 32-bit platform.
pub open spec fn fx_step32(h: u32, w: u32) -> u32 {
    ((((h << 5u32) | (h >> 27u32)) ^ w) as int * 0x27220a95int % 0x1_0000_0000int) as u32
}

/// The state of an `FxHasher` (64-bit platform) after the words `ws`.
pub open spec fn fx_fold64(ws: Seq<u64>) -> u64
    decreases ws.len(),
{
    if ws.len() == 0 {
        0
    } else {
        fx_step64(fx_fold64(ws.drop_last()), ws.last())
    }
}

/// The state of an `FxHasher` (32-bit platform) after the words `ws`.
pub open spec fn fx_fold32(ws: Seq<u32>) -> u32
    decreases ws.len(),
{
    if ws.len() == 0 {
        0
    } else {
        fx_step32(fx_fold32(ws.drop_last()), ws.last())
    }
}

/// The low half of a 64-bit word.
pub open spec fn lo32(x: u64) -> u32 {
    (x % 0x1_0000_0000) as u32
}

/// The high half of a 64-bit word.
pub open spec fn hi32(x: u64) -> u32 {
    (x / 0x1_0000_0000) as u32
}

/// What `FxHasher::finish` returns after the words that a platform of the
/// running pointer width feeds it: `w64` on 64-bit platforms, `w32` on
/// 32-bit ones (where a `u64` is fed as its low, then its high half).
pub open spec fn fx_hash(w64: Seq<u64>, w32: Seq<u32>) -> u64 {
    if usize::BITS == 64 {
        fx_fold64(w64)
    } else {
        fx_fold32(w32) as u64
    }
}

/// The hash that places a key in a group.
pub open spec fn group_hash(key: HashCode) -> u64 {
    fx_hash(seq![0u64, key], seq![0u32, lo32(key), hi32(key)])
}

/// The hash that places a key in a task of a group with `num_tasks` tasks.
pub open spec fn task_hash(key: HashCode, num_tasks: usize) -> u64 {
    fx_hash(seq![1u64, key, num_tasks as u64], seq![1u32, lo32(key), hi32(key), num_tasks as u32])
}

/// The hash of a key under a seed, from which a value is sampled.
pub open spec fn seed_hash(key: HashCode, seed: Seed) -> u64 {
    fx_hash(
        seq![2u64, key, seed],
        seq![2u32, lo32(key), hi32(key), lo32(seed), hi32(seed)],
    )
}

/// `FxHasher` from `BuildHasher::build_hasher`, fed `tag` and `key` through
/// their `Hash` impls (`write_u8`, `write_u64`), then `finish`ed.
#[verifier::external_body]
fn fx_hash_tag_key(build_hasher: &FxBuildHasher, tag: u8, key: u64) -> (r: u64)
    ensures
        r == fx_hash(seq![tag as u64, key], seq![tag as u32, lo32(key), hi32(key)]),
{
    let mut h = build_hasher.build_hasher();
    tag.hash(&mut h);
    key.hash(&mut h);
    h.finish()
}

/// `FxHasher` from `BuildHasher::build_hasher`, fed `tag` and the pair
/// `(key, n)` through their `Hash` impls (`write_u8`, `write_u64`,
/// `write_usize`), then `finish`ed.
#[verifier::external_body]
fn fx_hash_tag_key_usize(build_hasher: &FxBuildHasher, tag: u8, key: u64, n: usize) -> (r: u64)
    ensures
        r == fx_hash(
            seq![tag as u64, key, n as u64],
            seq![tag as u32, lo32(key), hi32(key), n as u32],
        ),
{
    let mut h = build_hasher.build_hasher();
    tag.hash(&mut h);
    (key, n).hash(&mut h);
    h.finish()
}

/// `FxHasher` from `BuildHasher::build_hasher`, fed `tag` and the pair
/// `(key, seed)` through their `Hash` impls (`write_u8`, twice
/// `write_u64`), then `finish`ed.
#[verifier::external_body]
fn fx_hash_tag_key_u64(build_hasher: &FxBuildHasher, tag: u8, key: u64, seed: u64) -> (r: u64)
    ensures
        r == fx_hash(
            seq![tag as u64, key, seed],
            seq![tag as u32, lo32(key), hi32(key), lo32(seed), hi32(seed)],
        ),
{
    let mut h = build_hasher.build_hasher();
    tag.hash(&mut h);
    (key, seed).hash(&mut h);
    h.finish()
}

/// The hashing of a retrieval structure: every hash is taken in a domain
/// of its own (a tag), so that the different uses of one key do not
/// correlate.
pub struct RetrievalHasher {
    build_hasher: FxBuildHasher,
}

impl RetrievalHasher {
    /// The builder of the hashers with which every hash is taken.
    pub closed spec fn hash_builder(&self) -> FxBuildHasher {
        self.build_hasher
    }

    /// A hasher that hashes with `hash_builder`.
    pub fn new_with_hasher(hash_builder: FxBuildHasher) -> (r: Self)
        ensures
            r.hash_builder() == hash_builder,
    {
        RetrievalHasher { build_hasher: hash_builder }
    }

    /// The group of `key` among `num_groups` groups.
    pub fn hash_to_group(&self, key: HashCode, num_groups: usize) -> (r: usize)
        ensures
            r == fast_range_spec(group_hash(key), num_groups),
            num_groups > 0 ==> r < num_groups,
    {
        fast_range(fx_hash_tag_key(&self.build_hasher, 0, key), num_groups)
    }

    /// The task of `key` among the `num_tasks` tasks of its group. The
    /// number of tasks is hashed too, so that the results for different
    /// numbers of tasks do not correlate.
    pub fn hash_to_task(&self, key: HashCode, num_tasks: usize) -> (r: usize)
        ensures
            r == fast_range_spec(task_hash(key, num_tasks), num_tasks),
            num_tasks > 0 ==> r < num_tasks,
    {
        fast_range(fx_hash_tag_key_usize(&self.build_hasher, 1, key, num_tasks), num_tasks)
    }

    /// The 64-bit hash of `key` under `seed`, from which the value of the
    /// key is sampled.
    pub fn hash_for_seed(&self, key: HashCode, seed: Seed) -> (r: u64)
        ensures
            r == seed_hash(key, seed),
    {
        fx_hash_tag_key_u64(&self.build_hasher, 2, key, seed)
    }
}

/// Whether no two keys have the same code.
pub fn codes_are_distinct(codes: &Vec<HashCode>) -> (r: bool)
    ensures
        r == codes@.no_duplicates(),
{
    broadcast use vstd::std_specs::hash::group_hash_axioms;

    let mut seen: HashSet<HashCode> = HashSet::with_capacity(codes.len());
    let mut i: usize = 0;
    while i < codes.len()
        invariant
            i <= codes.len(),
            codes@.take(i as int).no_duplicates(),
            forall|x: HashCode| seen@.contains(x) <==> codes@.take(i as int).contains(x),
        decreases codes.len() - i,
    {
        let ghost prefix = codes@.take(i as int);
        if !seen.insert(codes[i]) {
            proof {
                let k = choose|k: int| 0 <= k < prefix.len() && prefix[k] == codes@[i as int];
                assert(codes@[k] == codes@[i as int]);
            }
            return false;
        }
        proof {
            let next = codes@.take(i + 1);
            assert(next =~= prefix.push(codes@[i as int]));
            assert forall|x: HashCode| seen@.contains(x) <==> next.contains(x) by {
                if x == codes@[i as int] {
                    assert(next[i as int] == x);
                } else if next.contains(x) {
                    let k = choose|k: int| 0 <= k < next.len() && next[k] == x;
                    assert(prefix[k] == x);
                } else if prefix.contains(x) {
                    let k = choose|k: int| 0 <= k < prefix.len() && prefix[k] == x;
                    assert(next[k] == x);
                }
            }
            assert forall|a: int, b: int|
                0 <= a < next.len() && 0 <= b < next.len() && a != b implies next[a] != next[b] by {
                if a < prefix.len() && b < prefix.len() {
                    assert(prefix[a] != prefix[b]);
                } else if a == prefix.len() {
                    assert(next[b] == prefix[b]);
                    if prefix[b] == codes@[i as int] {
                        assert(prefix.contains(codes@[i as int]));
                    }
                } else {
                    assert(next[a] == prefix[a]);
                    if prefix[a] == codes@[i as int] {
                        assert(prefix.contains(codes@[i as int]));
                    }
                }
            }
        }
        i += 1;
    }
    assert(codes@.take(codes.len() as int) =~= codes@);
    true
}

} // verus!

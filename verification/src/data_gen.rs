//! Generation of test data: distinct 64-bit keys from a seeded hasher, and
//! the seeded hasher and random number generator themselves.
use vstd::prelude::*;
use ahash::RandomState;
use rand::rngs::StdRng;
use rand::{RngExt, SeedableRng};
use std::collections::HashSet;
use std::hash::BuildHasher;
use vstd::arithmetic::mul::lemma_mul_inequality;

verus! {

#[verifier::external_type_specification]
#[verifier::external_body]
pub struct ExAhashRandomState(RandomState);

#[verifier::external_type_specification]
#[verifier::external_body]
pub struct ExStdRng(StdRng);

/// `BuildHasher::hash_one` of an `ahash::RandomState` on a `usize`. Its
/// result depends on the hasher's keys and on the platform, and nothing is
/// stated of it.
#[verifier::external_body]
fn ahash_hash_one(hasher: &RandomState, x: usize) -> (r: u64) {
    hasher.hash_one(x)
}

/// The generator that `StdRng::seed_from_u64` builds from `seed`: the seed
/// is expanded by PCG32 into the generator's 32-byte seed, from which it
/// is built.
pub uninterp spec fn seeded_rng(seed: u64) -> StdRng;

/// `SeedableRng::seed_from_u64` for `StdRng`: the generator built from
/// `seed`, the same one for the same seed (a change of it is documented as
/// a value-breaking change).
#[verifier::external_body]
fn std_rng_seed_from_u64(seed: u64) -> (r: StdRng)
    ensures
        r == seeded_rng(seed),
{
    StdRng::seed_from_u64(seed)
}

/// `RngExt::random::<u64>`: the next 64-bit number of the generator, with
/// the generator after it. Nothing is stated of the number: the output of
/// `StdRng` is documented as not portable between platforms.
#[verifier::external_body]
fn std_rng_random_u64(rng: StdRng) -> (r: (u64, StdRng)) {
    let mut rng = rng;
    let x: u64 = rng.random();
    (x, rng)
}

/// `ahash::RandomState::with_seeds`: a hasher with the four given keys.
/// Nothing is stated of it.
#[verifier::external_body]
fn random_state_with_seeds(k0: u64, k1: u64, k2: u64, k3: u64) -> (r: RandomState) {
    RandomState::with_seeds(k0, k1, k2, k3)
}

/// `hasher` is the one that `RandomState::with_seeds` gives for the first
/// four 64-bit numbers drawn from `rng`, each drawn from the generator that
/// the draw before it left.
pub closed spec fn keyed_by_draws(rng: StdRng, hasher: RandomState) -> bool {
    exists|k0: u64, k1: u64, k2: u64, k3: u64, g1: StdRng, g2: StdRng, g3: StdRng, g4: StdRng|
        #![trigger call_ensures(std_rng_random_u64, (rng,), (k0, g1)), call_ensures(std_rng_random_u64, (g1,), (k1, g2)), call_ensures(std_rng_random_u64, (g2,), (k2, g3)), call_ensures(std_rng_random_u64, (g3,), (k3, g4))]
        {
            &&& call_ensures(std_rng_random_u64, (rng,), (k0, g1))
            &&& call_ensures(std_rng_random_u64, (g1,), (k1, g2))
            &&& call_ensures(std_rng_random_u64, (g2,), (k2, g3))
            &&& call_ensures(std_rng_random_u64, (g3,), (k3, g4))
            &&& call_ensures(random_state_with_seeds, (k0, k1, k2, k3), hasher)
        }
}

/// A hasher and a sampling generator, both derived from `seed`: the seed is
/// expanded by a generator into the four keys of the hasher, which expects
/// keys of high quality rather than a raw seed; the sampling generator is
/// the one seeded with `seed` itself. The hasher is keyed by the first four
/// draws of the generator seeded with the whole of `seed`.
pub fn seeded_state(seed: u64) -> (r: (RandomState, StdRng))
    ensures
        r.1 == seeded_rng(seed),
        keyed_by_draws(seeded_rng(seed), r.0),
{
    let rng = std_rng_seed_from_u64(seed);
    let draw = std_rng_random_u64;
    let (k0, g1) = draw(rng);
    let (k1, g2) = draw(g1);
    let (k2, g3) = draw(g2);
    let (k3, _g4) = draw(g3);
    let keyed = random_state_with_seeds;
    let hasher = keyed(k0, k1, k2, k3);
    (hasher, std_rng_seed_from_u64(seed))
}

/// The hasher that `seeded_state` gives is keyed by the draws of the very
/// generator it gives for sampling: both come from the generator seeded
/// with the whole seed, so seeds that differ anywhere, in their high bits
/// too, key hashers from different generators.
pub proof fn lemma_seeded_hasher_follows_sampling_generator(
    seed: u64,
    hasher: RandomState,
    rng: StdRng,
)
    requires
        rng == seeded_rng(seed),
        keyed_by_draws(seeded_rng(seed), hasher),
    ensures
        keyed_by_draws(rng, hasher),
{
}

/// The hash of candidate index `i + n * j` can come out as a key that
/// `prefix` holds already.
pub open spec fn candidate_taken<F: Fn(usize) -> u64>(
    hash: F,
    n: int,
    i: int,
    j: int,
    prefix: Seq<u64>,
) -> bool {
    exists|y: u64| call_ensures(hash, (((i + n * j) as usize),), y) && #[trigger] prefix.contains(y)
}

/// `key` is the hash of candidate index `i + n * j`, which fits in a
/// `usize`, and is new to `prefix`, while the hash of every earlier
/// candidate of `i` was taken by `prefix`.
pub open spec fn fresh_at<F: Fn(usize) -> u64>(
    hash: F,
    n: int,
    i: int,
    j: int,
    prefix: Seq<u64>,
    key: u64,
) -> bool {
    &&& 0 <= j
    &&& i + n * j <= usize::MAX
    &&& call_ensures(hash, (((i + n * j) as usize),), key)
    &&& !prefix.contains(key)
    &&& forall|j2: int| 0 <= j2 < j ==> #[trigger] candidate_taken(hash, n, i, j2, prefix)
}

/// `key` is the key of index `i` after the keys `prefix`: the hash of the
/// first candidate of `i` that is new.
pub open spec fn key_chosen<F: Fn(usize) -> u64>(
    hash: F,
    n: int,
    i: int,
    prefix: Seq<u64>,
    key: u64,
) -> bool {
    exists|j: int| #[trigger] fresh_at(hash, n, i, j, prefix, key)
}

/// Every key of `keys` is chosen after the keys before it.
pub open spec fn keys_chosen<F: Fn(usize) -> u64>(hash: F, n: int, keys: Seq<u64>) -> bool {
    forall|i: int| 0 <= i < keys.len() ==> #[trigger] key_chosen(hash, n, i, keys.take(i), keys[i])
}

/// Every candidate index of `i` that fits in a `usize` hashes to a key of
/// `prefix`.
pub open spec fn candidates_exhausted<F: Fn(usize) -> u64>(
    hash: F,
    n: int,
    i: int,
    prefix: Seq<u64>,
) -> bool {
    forall|j: int| 0 <= j && i + n * j <= usize::MAX ==> #[trigger] candidate_taken(hash, n, i, j, prefix)
}

/// `hash` gives one result for every argument.
pub open spec fn hash_is_deterministic<F: Fn(usize) -> u64>(hash: F) -> bool {
    forall|x: usize, y1: u64, y2: u64|
        #![trigger call_ensures(hash, (x,), y1), call_ensures(hash, (x,), y2)]
        call_ensures(hash, (x,), y1) && call_ensures(hash, (x,), y2) ==> y1 == y2
}

/// `n` distinct keys: the key of index `i` is the hash of `i` or, where
/// that hash is taken, of `i + n * j` for the first `j` that gives a new
/// one. `None` if, for some index, every candidate that fits in a `usize`
/// hashes to a key taken already.
pub fn unique_keys_with<F: Fn(usize) -> u64>(n: usize, hash: F) -> (r: Option<Vec<u64>>)
    requires
        forall|x: usize| #[trigger] call_requires(hash, (x,)),
    ensures
        r matches Some(v) ==> v.len() == n && v@.no_duplicates() && keys_chosen(hash, n as int, v@),
        r is None ==> exists|p: Seq<u64>|
            #[trigger] keys_chosen(hash, n as int, p) && p.len() < n && candidates_exhausted(
                hash,
                n as int,
                p.len() as int,
                p,
            ),
        n <= 1 ==> r is Some,
{
    broadcast use vstd::std_specs::hash::group_hash_axioms;

    let mut seen: HashSet<u64> = HashSet::new();
    let mut result: Vec<u64> = Vec::new();
    let mut i: usize = 0;
    while i < n
        invariant
            i <= n,
            result.len() == i,
            result@.no_duplicates(),
            forall|x: u64| seen@.contains(x) <==> result@.contains(x),
            keys_chosen(hash, n as int, result@),
            forall|x: usize| #[trigger] call_requires(hash, (x,)),
        decreases n - i,
    {
        let mut key = hash(i);
        let mut j: usize = 0;
        let ghost mut jk: int = 0;
        proof {
            assert(i + n * jk == i);
        }
        while seen.contains(&key)
            invariant
                i < n,
                result.len() == i,
                forall|x: u64| seen@.contains(x) <==> result@.contains(x),
                forall|x: usize| #[trigger] call_requires(hash, (x,)),
                keys_chosen(hash, n as int, result@),
                jk == (if j == 0 { 0int } else { j - 1 }),
                i + n * jk <= usize::MAX,
                call_ensures(hash, (((i + n * jk) as usize),), key),
                forall|j2: int| 0 <= j2 < jk ==> #[trigger] candidate_taken(hash, n as int, i as int, j2, result@),
            decreases usize::MAX - j,
        {
            proof {
                assert(result@.contains(key));
                assert(candidate_taken(hash, n as int, i as int, jk, result@));
            }
            let p = match n.checked_mul(j) {
                Some(p) => p,
                None => {
                    proof {
                        lemma_exhausted(hash, n as int, i as int, j as int, result@);
                    }
                    return None;
                },
            };
            let candidate = match i.checked_add(p) {
                Some(c) => c,
                None => {
                    proof {
                        lemma_exhausted(hash, n as int, i as int, j as int, result@);
                    }
                    return None;
                },
            };
            key = hash(candidate);
            proof {
                assert(i >= 1);
                assert(j < usize::MAX) by (nonlinear_arith)
                    requires
                        n >= 2,
                        n * j <= usize::MAX,
                ;
                jk = j as int;
            }
            j += 1;
        }
        let ghost old_result = result@;
        proof {
            assert(fresh_at(hash, n as int, i as int, jk, old_result, key));
        }
        seen.insert(key);
        result.push(key);
        proof {
            assert forall|a: int, b: int|
                0 <= a < result@.len() && 0 <= b < result@.len() && a != b implies result@[a]
                != result@[b] by {
                if a < old_result.len() && b < old_result.len() {
                    assert(old_result[a] != old_result[b]);
                } else if a == old_result.len() {
                    assert(result@[b] == old_result[b]);
                    if old_result[b] == key {
                        assert(old_result.contains(key));
                    }
                } else {
                    assert(result@[a] == old_result[a]);
                    if old_result[a] == key {
                        assert(old_result.contains(key));
                    }
                }
            }
            assert forall|x: u64| seen@.contains(x) <==> result@.contains(x) by {
                if x == key {
                    assert(result@[old_result.len() as int] == key);
                } else if result@.contains(x) {
                    let k = choose|k: int| 0 <= k < result@.len() && result@[k] == x;
                    assert(old_result[k] == x);
                } else if old_result.contains(x) {
                    let k = choose|k: int| 0 <= k < old_result.len() && old_result[k] == x;
                    assert(result@[k] == x);
                }
            }
            assert forall|k: int| 0 <= k < result@.len() implies #[trigger] key_chosen(
                hash,
                n as int,
                k,
                result@.take(k),
                result@[k],
            ) by {
                if k < old_result.len() {
                    assert(result@.take(k) =~= old_result.take(k));
                    assert(key_chosen(hash, n as int, k, old_result.take(k), old_result[k]));
                } else {
                    assert(result@.take(k) =~= old_result);
                }
            }
        }
        i += 1;
    }
    Some(result)
}

/// When candidate `j` of index `i` is past `usize::MAX` and every earlier
/// one is taken, every candidate of `i` that fits is taken.
proof fn lemma_exhausted<F: Fn(usize) -> u64>(hash: F, n: int, i: int, j: int, prefix: Seq<u64>)
    requires
        0 <= n,
        0 <= i <= usize::MAX,
        0 <= j,
        i + n * j > usize::MAX,
        forall|j2: int| 0 <= j2 < j ==> #[trigger] candidate_taken(hash, n, i, j2, prefix),
    ensures
        candidates_exhausted(hash, n, i, prefix),
{
    assert forall|j2: int| 0 <= j2 && i + n * j2 <= usize::MAX implies #[trigger] candidate_taken(
        hash,
        n,
        i,
        j2,
        prefix,
    ) by {
        if j2 >= j {
            lemma_mul_inequality(j, j2, n);
            assert(n * j <= n * j2) by (nonlinear_arith)
                requires
                    j * n <= j2 * n,
            ;
        }
    }
}

/// Keys chosen with one deterministic hash agree on every index both
/// reach.
proof fn lemma_chosen_prefix<F: Fn(usize) -> u64>(hash: F, n: int, v: Seq<u64>, w: Seq<u64>, k: int)
    requires
        hash_is_deterministic(hash),
        keys_chosen(hash, n, v),
        keys_chosen(hash, n, w),
        0 <= k <= v.len(),
        k <= w.len(),
    ensures
        v.take(k) == w.take(k),
    decreases k,
{
    if k > 0 {
        lemma_chosen_prefix(hash, n, v, w, k - 1);
        let i = k - 1;
        let p = v.take(i);
        assert(key_chosen(hash, n, i, v.take(i), v[i]));
        assert(key_chosen(hash, n, i, w.take(i), w[i]));
        let j1 = choose|j: int| #[trigger] fresh_at(hash, n, i, j, p, v[i]);
        let j2 = choose|j: int| #[trigger] fresh_at(hash, n, i, j, p, w[i]);
        if j1 < j2 {
            assert(candidate_taken(hash, n, i, j1, p));
            let y = choose|y: u64| call_ensures(hash, (((i + n * j1) as usize),), y) && #[trigger] p.contains(y);
            assert(y == v[i]);
        } else if j2 < j1 {
            assert(candidate_taken(hash, n, i, j2, p));
            let y = choose|y: u64| call_ensures(hash, (((i + n * j2) as usize),), y) && #[trigger] p.contains(y);
            assert(y == w[i]);
        }
        assert(v[i] == w[i]);
        assert(v.take(k) =~= v.take(i).push(v[i]));
        assert(w.take(k) =~= w.take(i).push(w[i]));
    }
}

/// With a deterministic hash, the keys are determined: two sequences of
/// equally many keys chosen by the rule of `unique_keys_with` are equal.
pub proof fn lemma_keys_chosen_unique<F: Fn(usize) -> u64>(hash: F, n: int, v: Seq<u64>, w: Seq<u64>)
    requires
        hash_is_deterministic(hash),
        keys_chosen(hash, n, v),
        keys_chosen(hash, n, w),
        v.len() == w.len(),
    ensures
        v == w,
{
    lemma_chosen_prefix(hash, n, v, w, v.len() as int);
    assert(v.take(v.len() as int) =~= v);
    assert(w.take(w.len() as int) =~= w);
}

/// With a deterministic hash, `unique_keys_with` cannot both succeed and
/// give up: where `n` keys can be chosen, no index has run out of
/// candidates after the keys before it.
pub proof fn lemma_success_excludes_exhaustion<F: Fn(usize) -> u64>(
    hash: F,
    n: int,
    v: Seq<u64>,
    p: Seq<u64>,
)
    requires
        hash_is_deterministic(hash),
        keys_chosen(hash, n, v),
        v.len() == n,
        keys_chosen(hash, n, p),
        p.len() < n,
    ensures
        !candidates_exhausted(hash, n, p.len() as int, p),
{
    let i = p.len() as int;
    lemma_chosen_prefix(hash, n, v, p, i);
    assert(p.take(i) =~= p);
    assert(key_chosen(hash, n, i, v.take(i), v[i]));
    let j = choose|j: int| #[trigger] fresh_at(hash, n, i, j, p, v[i]);
    if candidates_exhausted(hash, n, i, p) {
        assert(candidate_taken(hash, n, i, j, p));
        let y = choose|y: u64| call_ensures(hash, (((i + n * j) as usize),), y) && #[trigger] p.contains(y);
        assert(y == v[i]);
    }
}

/// Where the hashes of the indices below `n` are all different, every
/// index keeps the hash of itself as its key.
pub proof fn lemma_injective_keys_are_hashes<F: Fn(usize) -> u64>(hash: F, n: int, v: Seq<u64>)
    requires
        keys_chosen(hash, n, v),
        v.len() <= n,
        forall|a: int, b: int, ya: u64, yb: u64|
            #![trigger call_ensures(hash, ((a as usize),), ya), call_ensures(hash, ((b as usize),), yb)]
            0 <= a < b < n && call_ensures(hash, ((a as usize),), ya) && call_ensures(
                hash,
                ((b as usize),),
                yb,
            ) ==> ya != yb,
    ensures
        forall|i: int| 0 <= i < v.len() ==> call_ensures(hash, ((i as usize),), #[trigger] v[i]),
{
    lemma_injective_prefix(hash, n, v, v.len() as int);
}

proof fn lemma_injective_prefix<F: Fn(usize) -> u64>(hash: F, n: int, v: Seq<u64>, k: int)
    requires
        keys_chosen(hash, n, v),
        0 <= k <= v.len(),
        v.len() <= n,
        forall|a: int, b: int, ya: u64, yb: u64|
            #![trigger call_ensures(hash, ((a as usize),), ya), call_ensures(hash, ((b as usize),), yb)]
            0 <= a < b < n && call_ensures(hash, ((a as usize),), ya) && call_ensures(
                hash,
                ((b as usize),),
                yb,
            ) ==> ya != yb,
    ensures
        forall|i: int| 0 <= i < k ==> call_ensures(hash, ((i as usize),), #[trigger] v[i]),
    decreases k,
{
    if k > 0 {
        lemma_injective_prefix(hash, n, v, k - 1);
        let i = k - 1;
        let p = v.take(i);
        assert(key_chosen(hash, n, i, p, v[i]));
        let j = choose|j: int| #[trigger] fresh_at(hash, n, i, j, p, v[i]);
        if j > 0 {
            assert(candidate_taken(hash, n, i, 0, p));
            assert(i + n * 0 == i);
            let y = choose|y: u64| call_ensures(hash, (((i + n * 0) as usize),), y) && #[trigger] p.contains(y);
            let a = choose|a: int| 0 <= a < p.len() && p[a] == y;
            assert(p[a] == v[a]);
            assert(call_ensures(hash, ((a as usize),), v[a]));
        }
        assert(i + n * j == i);
    }
}

/// `n` distinct keys, each the hash under `hasher` of its index `i` or,
/// where that hash is taken, of `i + n * j` for the first `j` that gives a
/// new one. `None` if such a candidate index exceeds `usize::MAX`, which
/// takes a hash that is taken already, so at least two keys.
pub fn unique_keys_u64(n: usize, hasher: &RandomState) -> (r: Option<Vec<u64>>)
    ensures
        r matches Some(v) ==> v.len() == n && v@.no_duplicates(),
        n <= 1 ==> r is Some,
{
    let hash = |x: usize| -> (y: u64) { ahash_hash_one(hasher, x) };
    proof {
        assert forall|x: usize| #[trigger] call_requires(hash, (x,)) by {}
    }
    unique_keys_with(n, hash)
}

} // verus!

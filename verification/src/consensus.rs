//! The consensus vector: one bit sequence in which the seed of task `t` is
//! the 64-bit window that starts at bit `t`, found by a depth-first search
//! over the bits with backtracking.
use vstd::prelude::*;
use crate::bits::{
    MsbBitVec, bitvec_bits, max_bits, bit_at, word_bits, be_value, bitvec_with_capacity,
    bitvec_len, bitvec_is_empty, bitvec_append_word_bits, bitvec_split_off, bitvec_resize,
    bitvec_load_be, lemma_word_bits_shl1_or, lemma_word_bits_shr1_or, lemma_word_bits_shr1,
    lemma_be_value_bits, lemma_word_bits_shl1, lemma_word_bits_inc_even, lemma_be_word,
    lemma_be_value_injective, lemma_be_value_push, lemma_be_value_bound, bitvec_count_ones,
    count_true,
};
use crate::dfs::{dfs_rank, subtree_size, lemma_rank_ones_suffix, lemma_rank_bound};
use vstd::arithmetic::power2::{pow2, lemma_pow2_unfold, lemma_pow2_pos, lemma2_to64};
use crate::hasher::{HashCode, RetrievalHasher, Seed, fast_range_spec, task_hash};
use crate::insertion_vec::{InsertionVec, group_of, is_bucketing, lemma_bucketing_push, lemma_groups_tile};

verus! {

/// The 128-bit shifts that move bits between the cache and the current seed.
proof fn lemma_pair_shifts(c: u64, x: u64)
    by (bit_vector)
    ensures
        ((((((c as u128) << 64u128) | (x as u128)) << 1u128) >> 64u128) as u64) == ((c << 1u64)
            | (x >> 63u64)),
        (((((c as u128) << 64u128) | (x as u128)) << 1u128) as u64) == (x << 1u64),
        ((((((c as u128) << 64u128) | (x as u128)) >> 1u128) >> 64u128) as u64) == (c >> 1u64),
        (((((c as u128) << 64u128) | (x as u128)) >> 1u128) as u64) == ((c << 63u64) | (x
            >> 1u64)),
{
}

/// Keeps the committed bits of the consensus vector during the search: the
/// older bits in a bit vector and the most recent ones in a one-word cache.
///
/// The low `cache_valid` bits of `cache` are the most recently committed
/// bits (the newest one in the least significant position); the low
/// `cache_unwritten` of them are not yet in `consensus_vec`.
pub struct ConsensusVecManager {
    consensus_vec: MsbBitVec,
    cache: Seed,
    cache_valid: u32,
    cache_unwritten: u32,
}

impl ConsensusVecManager {
    /// The committed bits, oldest first.
    pub closed spec fn view(&self) -> Seq<bool> {
        bitvec_bits(self.consensus_vec) + word_bits(self.cache).subrange(
            64 - self.cache_unwritten,
            64,
        )
    }

    /// The cache agrees with the bit vector on the bits that are in both.
    pub closed spec fn wf(&self) -> bool {
        let w = bitvec_bits(self.consensus_vec);
        let written = self.cache_valid - self.cache_unwritten;
        &&& self.cache_unwritten <= self.cache_valid <= 64
        &&& written <= w.len()
        &&& word_bits(self.cache).subrange(64 - self.cache_valid, 64 - self.cache_unwritten)
            == w.subrange(w.len() - written, w.len() as int)
        &&& self.view().len() <= max_bits()
    }

    /// An empty manager whose bit vector has room for `cap` bits.
    pub fn new(cap: usize) -> (r: Self)
        requires
            cap <= max_bits(),
        ensures
            r.wf(),
            r@ == Seq::<bool>::empty(),
    {
        let r = Self {
            consensus_vec: bitvec_with_capacity(cap),
            cache: 0,
            cache_valid: 0,
            cache_unwritten: 0,
        };
        assert(r@ =~= Seq::<bool>::empty());
        assert(word_bits(0).subrange(64, 64) =~= bitvec_bits(r.consensus_vec).subrange(0, 0));
        r
    }

    /// The index of the task whose seed is being searched: the number of
    /// committed bits.
    pub fn current_task_idx(&self) -> (r: usize)
        requires
            self.wf(),
        ensures
            r == self@.len(),
    {
        bitvec_len(&self.consensus_vec) + self.cache_unwritten as usize
    }

    /// Commits the most significant bit of `current` and shifts `current`
    /// left by one, making room for the next task's last seed bit.
    #[verifier::rlimit(30)]
    pub fn rotate_in(&mut self, current: &mut Seed)
        requires
            old(self).wf(),
            old(self)@.len() + 1 <= max_bits(),
        ensures
            final(self).wf(),
            final(self)@ == old(self)@.push(bit_at(*old(current), 0)),
            *final(current) == (*old(current) << 1u64),
    {
        let ghost old_view = self@;
        if self.cache_unwritten == 64 {
            bitvec_append_word_bits(&mut self.consensus_vec, self.cache, 0, 64);
            self.cache_unwritten = 0;
            proof {
                let w = bitvec_bits(self.consensus_vec);
                assert(w.subrange(w.len() - 64, w.len() as int) =~= word_bits(self.cache));
                assert(self@ =~= old_view);
            }
        }
        let ghost c0 = self.cache;
        let ghost x0 = *current;
        let ghost cv0 = self.cache_valid;
        let ghost cu0 = self.cache_unwritten;
        let mut cache_seed: u128 = ((self.cache as u128) << 64u128) | (*current as u128);
        cache_seed = cache_seed << 1u128;
        self.cache = (cache_seed >> 64u128) as u64;
        *current = cache_seed as u64;
        self.cache_valid = self.cache_valid.saturating_add(1).min(64);
        self.cache_unwritten = self.cache_unwritten.saturating_add(1).min(64);
        proof {
            lemma_pair_shifts(c0, x0);
            lemma_word_bits_shl1_or(c0, x0);
            assert(cu0 < 64);
            assert(self.cache_unwritten == cu0 + 1);
            assert(self.cache_valid == if cv0 < 64 { cv0 + 1 } else { 64 });
            let w = bitvec_bits(self.consensus_vec);
            assert(word_bits(self.cache).subrange(64 - self.cache_unwritten, 64)
                =~= word_bits(c0).subrange(64 - cu0, 64).push(bit_at(x0, 0)));
            let k = self.cache_valid - self.cache_unwritten;
            let k0 = cv0 - cu0;
            assert(word_bits(c0).subrange(64 - cv0, 64 - cu0) == w.subrange(
                w.len() - k0,
                w.len() as int,
            ));
            assert forall|j: int| 0 <= j < k implies #[trigger] word_bits(self.cache).subrange(
                64 - self.cache_valid,
                64 - self.cache_unwritten,
            )[j] == w.subrange(w.len() - k, w.len() as int)[j] by {
                assert(word_bits(self.cache)[64 - self.cache_valid + j] == word_bits(c0)[65
                    - self.cache_valid + j]);
                assert(word_bits(c0).subrange(64 - cv0, 64 - cu0)[j + k0 - k] == w[w.len() - k
                    + j]);
            }
            assert(word_bits(self.cache).subrange(64 - self.cache_valid, 64 - self.cache_unwritten)
                =~= w.subrange(w.len() - k, w.len() as int));
            assert(self@ =~= old_view.push(bit_at(x0, 0)));
        }
    }

    /// Undoes the last `rotate_in`: takes the newest committed bit back as
    /// the most significant bit of `current`, shifting `current` right by
    /// one. Returns `true`, and changes nothing, when no bit is committed.
    #[verifier::rlimit(30)]
    pub fn rotate_out(&mut self, current: &mut Seed) -> (r: bool)
        requires
            old(self).wf(),
        ensures
            final(self).wf(),
            r == (old(self)@.len() == 0),
            r ==> final(self)@ == old(self)@ && *final(current) == *old(current),
            !r ==> final(self)@ == old(self)@.drop_last() && word_bits(*final(current)) == seq![
                old(self)@.last(),
            ] + word_bits(*old(current)).drop_last(),
    {
        let ghost old_view = self@;
        if self.cache_valid == 0 {
            if bitvec_is_empty(&self.consensus_vec) {
                assert(self@ =~= Seq::<bool>::empty());
                return true;
            }
            let len = bitvec_len(&self.consensus_vec);
            let to_read = if len < 64 { len } else { 64 };
            let tail = bitvec_split_off(&mut self.consensus_vec, len - to_read);
            self.cache = bitvec_load_be(&tail, 0, to_read);
            self.cache_valid = to_read as u32;
            self.cache_unwritten = self.cache_valid;
            proof {
                let t = bitvec_bits(tail);
                assert(t.subrange(0, to_read as int) =~= t);
                lemma_be_value_bits(t);
                assert(self@ =~= old_view);
                let w = bitvec_bits(self.consensus_vec);
                assert(word_bits(self.cache).subrange(64 - self.cache_valid, 64 - self.cache_unwritten)
                    =~= w.subrange(w.len() - 0, w.len() as int));
                assert(self.wf());
            }
        }
        let ghost c0 = self.cache;
        let ghost x0 = *current;
        let ghost cv0 = self.cache_valid;
        let ghost cu0 = self.cache_unwritten;
        let ghost w0 = bitvec_bits(self.consensus_vec);
        proof {
            assert(bit_at(c0, 63) == old_view.last()) by {
                if cu0 == 0 {
                    assert(word_bits(c0).subrange(64 - cv0, 64 - cu0)[cv0 - 1] == w0[w0.len() - 1]);
                } else {
                    assert(word_bits(c0).subrange(64 - cu0, 64)[cu0 - 1] == bit_at(c0, 63));
                }
            }
        }
        let mut cache_current: u128 = ((self.cache as u128) << 64u128) | (*current as u128);
        cache_current = cache_current >> 1u128;
        self.cache = (cache_current >> 64u128) as u64;
        *current = cache_current as u64;

        let len = bitvec_len(&self.consensus_vec);
        let popped: usize = if self.cache_unwritten == 0 { 1 } else { 0 };
        bitvec_resize(&mut self.consensus_vec, len.saturating_sub(popped), false);
        self.cache_valid = self.cache_valid.saturating_sub(1);
        self.cache_unwritten = self.cache_unwritten.saturating_sub(1);
        proof {
            lemma_pair_shifts(c0, x0);
            lemma_word_bits_shr1_or(c0, x0);
            lemma_word_bits_shr1(c0);
            let w = bitvec_bits(self.consensus_vec);
            let k = self.cache_valid - self.cache_unwritten;
            let k0 = cv0 - cu0;
            assert(word_bits(c0).subrange(64 - cv0, 64 - cu0) == w0.subrange(
                w0.len() - k0,
                w0.len() as int,
            ));
            if cu0 == 0 {
                assert(w =~= w0.take(w0.len() - 1));
            } else {
                assert(w == w0);
                assert(word_bits(self.cache).subrange(64 - self.cache_unwritten, 64)
                    =~= word_bits(c0).subrange(64 - cu0, 63));
            }
            assert forall|j: int| 0 <= j < k implies #[trigger] word_bits(self.cache).subrange(
                64 - self.cache_valid,
                64 - self.cache_unwritten,
            )[j] == w.subrange(w.len() - k, w.len() as int)[j] by {
                assert(word_bits(self.cache)[64 - self.cache_valid + j] == word_bits(c0)[63
                    - self.cache_valid + j]);
                assert(word_bits(c0).subrange(64 - cv0, 64 - cu0)[j] == w0[w0.len() - k0 + j]);
            }
            assert(word_bits(self.cache).subrange(64 - self.cache_valid, 64 - self.cache_unwritten)
                =~= w.subrange(w.len() - k, w.len() as int));
            assert(self@ =~= old_view.drop_last());
        }
        false
    }

    /// The final consensus vector: the committed bits followed by the 63
    /// most significant bits of `final_seed`.
    pub fn dismantle(self, final_seed: Seed) -> (r: MsbBitVec)
        requires
            self.wf(),
            self@.len() + 63 <= max_bits(),
        ensures
            bitvec_bits(r) == self@ + word_bits(final_seed).take(63),
    {
        let mut v = self.consensus_vec;
        bitvec_append_word_bits(&mut v, self.cache, (64 - self.cache_unwritten) as usize, 64);
        bitvec_append_word_bits(&mut v, final_seed, 0, 63);
        assert(bitvec_bits(v) =~= self@ + word_bits(final_seed).take(63));
        v
    }
}

/// The seed of task `t`: the 64 bits of `bits` from index `t` on, read as a
/// big-endian number.
pub open spec fn seed_at(bits: Seq<bool>, t: int) -> nat {
    be_value(bits.subrange(t, t + 64))
}

/// Every answer that `key_ok` can give for the key with index `key` under
/// `seed` is `true`.
pub open spec fn key_accepts<F: Fn(usize, Seed) -> bool>(key_ok: F, key: usize, seed: Seed) -> bool {
    forall|r: bool| call_ensures(key_ok, (key, seed), r) ==> r
}

/// `key_ok` answered `true` for every key of the task under `seed`.
pub open spec fn task_observed<F: Fn(usize, Seed) -> bool>(
    key_ok: F,
    keys: Vec<usize>,
    seed: Seed,
) -> bool {
    forall|j: int| 0 <= j < keys.len() ==> #[trigger] call_ensures(key_ok, (keys[j], seed), true)
}

/// `key_ok` answered `true` for every key of every task under the seed
/// that `bits` gives the task.
pub open spec fn is_observed_solution<F: Fn(usize, Seed) -> bool>(
    key_ok: F,
    tasks: Seq<Vec<usize>>,
    bits: Seq<bool>,
) -> bool {
    &&& bits.len() == tasks.len() + 63
    &&& forall|t: int|
        0 <= t < tasks.len() ==> #[trigger] task_observed(key_ok, tasks[t], seed_at(bits, t) as u64)
}

/// `seed` is accepted for every key of the task.
pub open spec fn task_satisfied<F: Fn(usize, Seed) -> bool>(
    key_ok: F,
    keys: Vec<usize>,
    seed: Seed,
) -> bool {
    forall|j: int| 0 <= j < keys.len() ==> #[trigger] key_accepts(key_ok, keys[j], seed)
}

/// `bits` is a consensus vector for `tasks`: one bit per task plus 63, and
/// the seed of every task is accepted for all of its keys.
pub open spec fn is_solution<F: Fn(usize, Seed) -> bool>(
    key_ok: F,
    tasks: Seq<Vec<usize>>,
    bits: Seq<bool>,
) -> bool {
    &&& bits.len() == tasks.len() + 63
    &&& forall|t: int|
        0 <= t < tasks.len() ==> #[trigger] task_satisfied(key_ok, tasks[t], seed_at(bits, t) as u64)
}

/// `key_ok` answers every question in one way only.
pub open spec fn is_deterministic<F: Fn(usize, Seed) -> bool>(key_ok: F) -> bool {
    forall|k: usize, s: Seed, r1: bool, r2: bool|
        #![trigger call_ensures(key_ok, (k, s), r1), call_ensures(key_ok, (k, s), r2)]
        call_ensures(key_ok, (k, s), r1) && call_ensures(key_ok, (k, s), r2) ==> r1 == r2
}

/// `key_ok` can be called on every key and seed.
pub open spec fn is_total<F: Fn(usize, Seed) -> bool>(key_ok: F) -> bool {
    forall|k: usize, s: Seed| #[trigger] call_requires(key_ok, (k, s))
}

/// The number of leading bits of the search path that are compared with
/// solutions while task `p` of `n` is searched.
pub open spec fn compared_len(p: int, n: int) -> int {
    if p < n {
        p + 64
    } else {
        n + 63
    }
}

/// Every window that starts before `p` was accepted for its task.
pub open spec fn windows_observed<F: Fn(usize, Seed) -> bool>(
    key_ok: F,
    tasks: Seq<Vec<usize>>,
    path: Seq<bool>,
    p: int,
) -> bool {
    forall|t: int|
        0 <= t < p ==> #[trigger] task_observed(key_ok, tasks[t], seed_at(path, t) as u64)
}

/// An answer that a deterministic check gave is every answer it can give.
pub proof fn lemma_observed_solution_is_solution<F: Fn(usize, Seed) -> bool>(
    key_ok: F,
    tasks: Seq<Vec<usize>>,
    bits: Seq<bool>,
)
    requires
        is_deterministic(key_ok),
        is_observed_solution(key_ok, tasks, bits),
    ensures
        is_solution(key_ok, tasks, bits),
{
    assert forall|t: int| 0 <= t < tasks.len() implies #[trigger] task_satisfied(
        key_ok,
        tasks[t],
        seed_at(bits, t) as u64,
    ) by {
        assert(task_observed(key_ok, tasks[t], seed_at(bits, t) as u64));
        assert forall|j: int| 0 <= j < tasks[t].len() implies #[trigger] key_accepts(
            key_ok,
            tasks[t][j],
            seed_at(bits, t) as u64,
        ) by {
            assert(call_ensures(key_ok, (tasks[t][j], seed_at(bits, t) as u64), true));
        }
    }
}

/// The number of keys of the first `p` tasks.
pub open spec fn num_task_keys(tasks: Seq<Vec<usize>>, p: int) -> int
    decreases p,
{
    if p <= 0 {
        0
    } else {
        num_task_keys(tasks, p - 1) + tasks[p - 1].len()
    }
}

/// Tasks that hold no key hold no key in total.
proof fn lemma_num_task_keys_empty(tasks: Seq<Vec<usize>>, p: int)
    requires
        0 <= p <= tasks.len(),
        forall|h: int| 0 <= h < p ==> (#[trigger] tasks[h]).len() == 0,
    ensures
        num_task_keys(tasks, p) == 0,
    decreases p,
{
    if p > 0 {
        lemma_num_task_keys_empty(tasks, p - 1);
    }
}

/// One more key in task `b` is one more key in every prefix that holds `b`.
proof fn lemma_num_task_keys_push(t0: Seq<Vec<usize>>, t1: Seq<Vec<usize>>, b: int, p: int)
    requires
        t0.len() == t1.len(),
        0 <= b < t0.len(),
        t1[b].len() == t0[b].len() + 1,
        forall|h: int| 0 <= h < t0.len() && h != b ==> (#[trigger] t1[h]).len() == t0[h].len(),
        0 <= p <= t0.len(),
    ensures
        num_task_keys(t1, p) == num_task_keys(t0, p) + (if b < p { 1int } else { 0int }),
    decreases p,
{
    if p > 0 {
        lemma_num_task_keys_push(t0, t1, b, p - 1);
    }
}

proof fn lemma_num_task_keys_mono(tasks: Seq<Vec<usize>>, p: int, q: int)
    requires
        0 <= p <= q,
    ensures
        num_task_keys(tasks, p) <= num_task_keys(tasks, q),
    decreases q - p,
{
    if p < q {
        lemma_num_task_keys_mono(tasks, p, q - 1);
    }
}

/// Two paths agree on every window that starts before `p`.
proof fn lemma_windows_agree<F: Fn(usize, Seed) -> bool>(
    key_ok: F,
    tasks: Seq<Vec<usize>>,
    a: Seq<bool>,
    b: Seq<bool>,
    p: int,
    k: int,
)
    requires
        windows_observed(key_ok, tasks, a, p),
        p + 63 <= k,
        k <= a.len(),
        k <= b.len(),
        a.take(k) == b.take(k),
    ensures
        windows_observed(key_ok, tasks, b, p),
{
    assert forall|t: int| 0 <= t < p implies #[trigger] task_observed(
        key_ok,
        tasks[t],
        seed_at(b, t) as u64,
    ) by {
        assert forall|i: int| 0 <= i < 64 implies #[trigger] a.subrange(t, t + 64)[i]
            == b.subrange(t, t + 64)[i] by {
            assert(a.take(k)[t + i] == a[t + i]);
            assert(b.take(k)[t + i] == b[t + i]);
        }
        assert(a.subrange(t, t + 64) =~= b.subrange(t, t + 64));
        assert(task_observed(key_ok, tasks[t], seed_at(a, t) as u64));
    }
}

/// The number of keys of `keys`, from the `j`-th on, that the search asks
/// about under `seed`: it asks in order and stops after the first key that
/// `seed` does not fit.
pub open spec fn checks_from<F: Fn(usize, Seed) -> bool>(
    key_ok: F,
    keys: Seq<usize>,
    seed: Seed,
    j: int,
) -> nat
    decreases keys.len() - j,
{
    if j < 0 || j >= keys.len() {
        0
    } else if key_accepts(key_ok, keys[j], seed) {
        1 + checks_from(key_ok, keys, seed, j + 1)
    } else {
        1
    }
}

/// `x` without the ones at its end, down to 64 bits.
pub open spec fn strip_ones(x: Seq<bool>) -> Seq<bool>
    decreases x.len(),
{
    if x.len() > 64 && x.last() {
        strip_ones(x.drop_last())
    } else {
        x
    }
}

/// The search path that follows `x`: if the seed of the last task of `x`
/// fits all its keys, the next task is tried with a zero appended;
/// otherwise the ones at the end are dropped and the last bit is raised, a
/// root seed being counted up as a number.
pub open spec fn search_step<F: Fn(usize, Seed) -> bool>(
    key_ok: F,
    tasks: Seq<Vec<usize>>,
    x: Seq<bool>,
) -> Seq<bool> {
    let t = x.len() - 64;
    if task_satisfied(key_ok, tasks[t], seed_at(x, t) as u64) {
        x.push(false)
    } else {
        let z = strip_ones(x);
        if !z.last() {
            z.drop_last().push(true)
        } else {
            word_bits((be_value(z) + 1) as u64)
        }
    }
}

/// The search path after `k` steps from the root seed 0.
pub open spec fn search_path<F: Fn(usize, Seed) -> bool>(
    key_ok: F,
    tasks: Seq<Vec<usize>>,
    k: nat,
) -> Seq<bool>
    decreases k,
{
    if k == 0 {
        word_bits(0)
    } else {
        search_step(key_ok, tasks, search_path(key_ok, tasks, (k - 1) as nat))
    }
}

/// The number of key checks of the first `k` steps of the search.
pub open spec fn search_checks<F: Fn(usize, Seed) -> bool>(
    key_ok: F,
    tasks: Seq<Vec<usize>>,
    k: nat,
) -> nat
    decreases k,
{
    if k == 0 {
        0
    } else {
        let x = search_path(key_ok, tasks, (k - 1) as nat);
        let t = x.len() - 64;
        search_checks(key_ok, tasks, (k - 1) as nat) + checks_from(
            key_ok,
            tasks[t]@,
            seed_at(x, t) as u64,
            0,
        )
    }
}

/// The search ends with step `k`: its path then holds a bit for every task
/// and 64 more, and did so after no earlier step.
pub open spec fn search_ends_at<F: Fn(usize, Seed) -> bool>(
    key_ok: F,
    tasks: Seq<Vec<usize>>,
    k: nat,
) -> bool {
    &&& search_path(key_ok, tasks, k).len() == tasks.len() + 64
    &&& forall|k2: nat| k2 < k ==> #[trigger] search_path(key_ok, tasks, k2).len() < tasks.len() + 64
}

/// `v`, or `u64::MAX` where `v` exceeds it.
pub open spec fn saturated(v: int) -> int {
    if v < u64::MAX {
        v
    } else {
        u64::MAX as int
    }
}

/// Dropping the ones at the end of `x` stops at `m` when the bits from `m`
/// on are ones and bit `m - 1` is a zero or the root seed ends there.
proof fn lemma_strip_ones(x: Seq<bool>, m: int)
    requires
        64 <= m <= x.len(),
        forall|i: int| m <= i < x.len() ==> x[i],
        m == 64 || !x[m - 1],
    ensures
        strip_ones(x) == x.take(m),
    decreases x.len(),
{
    if x.len() == m {
        assert(x.take(m) =~= x);
    } else {
        assert(x.drop_last().take(m) =~= x.take(m));
        lemma_strip_ones(x.drop_last(), m);
    }
}

/// What a deterministic check answered is whether the key accepts the
/// seed.
proof fn lemma_answer_is_acceptance<F: Fn(usize, Seed) -> bool>(
    key_ok: F,
    k: usize,
    s: Seed,
    ok: bool,
)
    requires
        is_deterministic(key_ok),
        call_ensures(key_ok, (k, s), ok),
    ensures
        key_accepts(key_ok, k, s) == ok,
{
    if ok {
        assert forall|r: bool| call_ensures(key_ok, (k, s), r) implies r by {}
    }
}

/// A failed task is followed by the path that the backtracking reaches:
/// the ones at the end dropped down to `z`, whose last seed `c0` is then
/// counted up by one.
proof fn lemma_fail_step<F: Fn(usize, Seed) -> bool>(
    key_ok: F,
    tasks: Seq<Vec<usize>>,
    x: Seq<bool>,
    z: Seq<bool>,
    c0: u64,
    path1: Seq<bool>,
)
    requires
        64 <= z.len() <= x.len(),
        x.len() - 64 < tasks.len(),
        !task_satisfied(key_ok, tasks[x.len() - 64], seed_at(x, x.len() - 64) as u64),
        z == x.take(z.len() as int),
        forall|i: int| z.len() <= i < x.len() ==> x[i],
        z.subrange(z.len() - 64, z.len() as int) == word_bits(c0),
        c0 & 1 == 0 || z.len() == 64,
        c0 & 1 == 0 ==> path1 == z.drop_last().push(true),
        c0 & 1 != 0 ==> path1 == word_bits((c0 + 1) as u64),
    ensures
        search_step(key_ok, tasks, x) == path1,
{
    let m = z.len() as int;
    assert((c0 >> 0u64) & 1u64 == c0 & 1u64) by (bit_vector);
    assert(z.last() == word_bits(c0)[63]);
    assert(z.last() == (c0 & 1 == 1));
    assert(c0 & 1 == 0 || c0 & 1 == 1) by (bit_vector);
    lemma_strip_ones(x, m);
    if c0 & 1 != 0 {
        assert(z =~= word_bits(c0));
        lemma_be_word(c0);
    }
}

/// The consensus vector: a bit vector in which the seed of task `t` is the
/// 64-bit window starting at bit `t`.
pub struct ConsensusVector {
    bitvec: MsbBitVec,
    hash_evaluations: u64,
}

impl ConsensusVector {
    /// The bits of the consensus vector.
    pub closed spec fn view(&self) -> Seq<bool> {
        bitvec_bits(self.bitvec)
    }

    /// The number of key checks made during the search (saturating).
    pub closed spec fn spec_hash_evaluations(&self) -> u64 {
        self.hash_evaluations
    }

    /// Searches the consensus vector for `tasks` depth first: the seed of
    /// the current task is tried; if `key_ok` accepts it for all keys of the
    /// task, its first bit is committed and the next task is tried with the
    /// remaining bits and a zero appended; otherwise the search backtracks
    /// over the trailing ones and sets the last zero bit.
    ///
    /// `tasks[t]` lists the indices of the keys of task `t`; `key_ok(k, s)`
    /// says whether seed `s` gives key `k` its value. The result is the
    /// least solution, read as a big-endian number, and counts the questions
    /// asked of `key_ok` on the way (saturating at `u64::MAX`).
    #[verifier::rlimit(30)]
    pub fn new<F: Fn(usize, Seed) -> bool>(tasks: &Vec<Vec<usize>>, key_ok: F) -> (r: Self)
        requires
            tasks.len() + 63 <= max_bits(),
            is_total(key_ok),
            is_deterministic(key_ok),
            exists|b: Seq<bool>| is_solution(key_ok, tasks@, b),
        ensures
            is_observed_solution(key_ok, tasks@, r@),
            is_solution(key_ok, tasks@, r@),
            forall|b: Seq<bool>| is_solution(key_ok, tasks@, b) ==> be_value(r@) <= be_value(b),
            r.spec_hash_evaluations() == u64::MAX || r.spec_hash_evaluations() >= num_task_keys(
                tasks@,
                tasks.len() as int,
            ),
            exists|k: nat|
                #[trigger] search_ends_at(key_ok, tasks@, k) && r.spec_hash_evaluations()
                    == saturated(search_checks(key_ok, tasks@, k) as int),
    {
        let n = tasks.len();
        let ghost mut k: nat = 0;
        let ghost mut total: nat = 0;
        let ghost dmax: nat = (n + 64) as nat;
        let ghost top: int = (pow2(64) * subtree_size(dmax, 64)) as int;
        let mut consensus_vec = ConsensusVecManager::new(n + 63);
        let mut current: Seed = 0;
        let mut hash_evaluations: u64 = 0;
        proof {
            let path = consensus_vec@ + word_bits(current);
            assert(path =~= word_bits(0));
            lemma_rank_bound(path, dmax);
            assert forall|b: Seq<bool>| is_solution(key_ok, tasks@, b) implies be_value(
                path.take(compared_len(0, n as int)),
            ) <= be_value(b.take(compared_len(0, n as int))) by {
                lemma_be_word(0);
                if n > 0 {
                    assert(path.take(64) =~= path);
                } else {
                    lemma_prefix_of_zero_word(63);
                }
            }
        }
        while consensus_vec.current_task_idx() < n
            invariant
                n == tasks.len(),
                n + 63 <= max_bits(),
                dmax == n + 64,
                top == pow2(64) * subtree_size(dmax, 64),
                is_total(key_ok),
                is_deterministic(key_ok),
                exists|b: Seq<bool>| is_solution(key_ok, tasks@, b),
                consensus_vec.wf(),
                consensus_vec@.len() <= n,
                windows_observed(
                    key_ok,
                    tasks@,
                    consensus_vec@ + word_bits(current),
                    consensus_vec@.len() as int,
                ),
                forall|b: Seq<bool>|
                    is_solution(key_ok, tasks@, b) ==> be_value(
                        (consensus_vec@ + word_bits(current)).take(
                            compared_len(consensus_vec@.len() as int, n as int),
                        ),
                    ) <= be_value(
                        b.take(compared_len(consensus_vec@.len() as int, n as int)),
                    ),
                dfs_rank(consensus_vec@ + word_bits(current), dmax) < top,
                hash_evaluations == u64::MAX || hash_evaluations >= num_task_keys(
                    tasks@,
                    consensus_vec@.len() as int,
                ),
                consensus_vec@ + word_bits(current) == search_path(key_ok, tasks@, k),
                total == search_checks(key_ok, tasks@, k),
                hash_evaluations == saturated(total as int),
                forall|k2: nat| k2 < k ==> #[trigger] search_path(key_ok, tasks@, k2).len() < n + 64,
            decreases top - dfs_rank(consensus_vec@ + word_bits(current), dmax),
        {
            let task = consensus_vec.current_task_idx();
            let ghost path = consensus_vec@ + word_bits(current);
            let ghost rank0 = dfs_rank(path, dmax);
            let keys = &tasks[task];
            let ghost ev0 = hash_evaluations;
            let mut task_valid = true;
            let mut j: usize = 0;
            while j < keys.len()
                invariant_except_break
                    task_valid,
                    forall|i: int|
                        0 <= i < j ==> #[trigger] call_ensures(key_ok, (keys[i], current), true),
                    forall|i: int| 0 <= i < j ==> #[trigger] key_accepts(key_ok, keys[i], current),
                    hash_evaluations == saturated(total + j),
                invariant
                    is_total(key_ok),
                    is_deterministic(key_ok),
                    j <= keys.len(),
                    hash_evaluations == u64::MAX || hash_evaluations >= ev0 + j,
                    checks_from(key_ok, keys@, current, 0) == j + checks_from(
                        key_ok,
                        keys@,
                        current,
                        j as int,
                    ),
                ensures
                    hash_evaluations == saturated((total + checks_from(key_ok, keys@, current, 0)) as int),
                    task_valid ==> task_satisfied(key_ok, *keys, current),
                    !task_valid ==> !task_satisfied(key_ok, *keys, current),
                    task_valid ==> task_observed(key_ok, *keys, current),
                    task_valid ==> hash_evaluations == u64::MAX || hash_evaluations >= ev0
                        + keys.len(),
                    !task_valid ==> exists|i: int|
                        0 <= i < keys.len() && call_ensures(key_ok, (keys[i], current), false),
                decreases keys.len() - j,
            {
                hash_evaluations = hash_evaluations.saturating_add(1);
                let ok = key_ok(keys[j], current);
                proof {
                    lemma_answer_is_acceptance(key_ok, keys[j as int], current, ok);
                }
                if !ok {
                    task_valid = false;
                    assert(call_ensures(key_ok, (keys[j as int], current), false));
                    break;
                }
                proof {
                    assert forall|i: int| 0 <= i < j + 1 implies #[trigger] key_accepts(
                        key_ok,
                        keys[i],
                        current,
                    ) by {
                        if i < j {
                            lemma_answer_is_acceptance(key_ok, keys[i], current, true);
                        }
                    }
                }
                j += 1;
            }
            proof {
                assert(path.subrange(task as int, task + 64) =~= word_bits(current));
                lemma_be_word(current);
                assert(seed_at(path, task as int) as u64 == current);
                assert(tasks@[task as int]@ == keys@);
                total = total + checks_from(key_ok, keys@, current, 0);
                assert(search_checks(key_ok, tasks@, k + 1) == total);
                assert(search_path(key_ok, tasks@, k).len() < n + 64);
            }
            if task_valid {
                let ghost c0 = current;
                consensus_vec.rotate_in(&mut current);
                proof {
                    assert(search_step(key_ok, tasks@, path) == path.push(false));
                    assert(num_task_keys(tasks@, task + 1) == num_task_keys(tasks@, task as int)
                        + keys.len());
                    lemma_word_bits_shl1(c0);
                    let path1 = consensus_vec@ + word_bits(current);
                    assert(path1 =~= path.push(false));
                    assert(path.subrange(task as int, task + 64) =~= word_bits(c0));
                    lemma_be_word(c0);
                    assert(path1.take(path.len() as int) =~= path.take(path.len() as int));
                    assert(path.take(path.len() as int) =~= path);
                    lemma_windows_agree(key_ok, tasks@, path, path1, task as int, path.len() as int);
                    assert(windows_observed(key_ok, tasks@, path1, task + 1)) by {
                        assert forall|t: int| 0 <= t < task + 1 implies #[trigger] task_observed(
                            key_ok,
                            tasks@[t],
                            seed_at(path1, t) as u64,
                        ) by {
                            if t == task {
                                assert(path1.subrange(t, t + 64) =~= word_bits(c0));
                            }
                        }
                    }
                    lemma_rank_bound(path1, dmax);
                    assert(path1.drop_last() =~= path);
                    let q = compared_len(task as int, n as int);
                    let q1 = compared_len(task + 1, n as int);
                    assert forall|b: Seq<bool>| is_solution(key_ok, tasks@, b) implies be_value(
                        path1.take(q1),
                    ) <= be_value(b.take(q1)) by {
                        if task + 1 < n {
                            assert(path1.take(q1) =~= path.take(q).push(false));
                            assert(b.take(q1) =~= b.take(q).push(b[q]));
                            lemma_be_value_push(path.take(q), false);
                            lemma_be_value_push(b.take(q), b[q]);
                        } else {
                            assert(path1.take(q1) =~= path.take(q));
                        }
                    }
                    k = k + 1;
                }
                continue;
            }
            proof {
                let q = path.len() as int;
                assert(path.take(q) =~= path);
                assert forall|b: Seq<bool>| is_solution(key_ok, tasks@, b) implies be_value(path)
                    < be_value(b.take(q)) by {
                    if be_value(path) == be_value(b.take(q)) {
                        lemma_be_value_injective(path, b.take(q));
                        assert(path.subrange(task as int, task + 64) =~= word_bits(current));
                        assert(b.subrange(task as int, task + 64) =~= b.take(q).subrange(
                            task as int,
                            task + 64,
                        ));
                        assert(b.subrange(task as int, task + 64) =~= word_bits(current));
                        lemma_be_word(current);
                        assert(task_satisfied(key_ok, tasks@[task as int], seed_at(b, task as int) as u64));
                        let i = choose|i: int|
                            0 <= i < keys.len() && call_ensures(key_ok, (keys[i], current), false);
                        assert(key_accepts(key_ok, keys[i], current));
                        assert(false);
                    }
                }
            }
            let ghost x_fail = path;
            while current & 1 != 0
                invariant
                    n == tasks.len(),
                    dmax == n + 64,
                    consensus_vec.wf(),
                    consensus_vec@.len() <= task < n,
                    x_fail.len() == task + 64,
                    (consensus_vec@ + word_bits(current)) == x_fail.take(
                        (consensus_vec@.len() + 64) as int,
                    ),
                    forall|i: int| consensus_vec@.len() + 64 <= i < x_fail.len() ==> x_fail[i],
                    windows_observed(key_ok, tasks@, x_fail, task as int),
                    hash_evaluations == u64::MAX || hash_evaluations >= num_task_keys(
                        tasks@,
                        task as int,
                    ),
                    forall|b: Seq<bool>|
                        is_solution(key_ok, tasks@, b) ==> be_value(
                            consensus_vec@ + word_bits(current),
                        ) < be_value(b.take((consensus_vec@.len() + 64) as int)),
                ensures
                    current & 1 == 0 || consensus_vec@.len() == 0,
                decreases consensus_vec@.len(),
            {
                let ghost c0 = current;
                let ghost v0 = consensus_vec@;
                if consensus_vec.rotate_out(&mut current) {
                    break;
                }
                proof {
                    let p0 = v0 + word_bits(c0);
                    let p1 = consensus_vec@ + word_bits(current);
                    assert(p1 =~= p0.drop_last());
                    assert(c0 & 1u64 != 0u64 ==> (c0 >> 0u64) & 1u64 == 1u64) by (bit_vector);
                    assert(p0.last() == bit_at(c0, 63));
                    assert(p0 =~= p1.push(true));
                    assert(p1 =~= x_fail.take((consensus_vec@.len() + 64) as int));
                    assert forall|b: Seq<bool>| is_solution(key_ok, tasks@, b) implies be_value(p1)
                        < be_value(b.take((consensus_vec@.len() + 64) as int)) by {
                        let l = (consensus_vec@.len() + 64) as int;
                        lemma_be_value_push(p1, true);
                        assert(b.take(l + 1) =~= b.take(l).push(b[l]));
                        lemma_be_value_push(b.take(l), b[l]);
                    }
                }
            }
            let ghost z = consensus_vec@ + word_bits(current);
            let ghost m = z.len() as int;
            proof {
                lemma_rank_ones_suffix(x_fail, m, dmax);
                assert(x_fail.take(m) == z);
                let bsol = choose|b: Seq<bool>| is_solution(key_ok, tasks@, b);
                assert(be_value(z) < be_value(bsol.take(m)));
                lemma_be_value_bound(bsol.take(64));
                lemma2_to64();
                if consensus_vec@.len() == 0 {
                    assert(z =~= word_bits(current));
                    assert(bsol.take(m) =~= bsol.take(64));
                    lemma_be_word(current);
                }
            }
            let ghost even = current & 1 == 0;
            let ghost c0 = current;
            proof {
                if even {
                    lemma_word_bits_inc_even(current);
                }
            }
            current = current + 1;
            proof {
                let path1 = consensus_vec@ + word_bits(current);
                lemma_pow2_unfold((dmax + 1 - x_fail.len()) as nat);
                lemma_pow2_pos((dmax - x_fail.len()) as nat);
                lemma_pow2_unfold((dmax + 1 - 64) as nat);
                lemma_pow2_pos((dmax - 64) as nat);
                if even {
                    assert(path1 =~= z.drop_last().push(true));
                    assert((c0 >> 0u64) & 1u64 == c0 & 1u64) by (bit_vector);
                    assert(z.last() == false);
                    assert(z =~= z.drop_last().push(false));
                    lemma_be_value_push(z.drop_last(), false);
                    lemma_be_value_push(z.drop_last(), true);
                } else {
                    assert(consensus_vec@.len() == 0);
                    assert(path1 =~= word_bits(current));
                    lemma_be_word(current);
                    lemma_be_word(c0);
                }
                assert(be_value(path1) == be_value(z) + 1);
                if m == 64 {
                    assert(path1.len() == 64);
                    assert(dfs_rank(path1, dmax) == (be_value(z) + 1) * subtree_size(dmax, 64));
                    assert(dfs_rank(z, dmax) == be_value(z) * subtree_size(dmax, 64));
                    assert((be_value(z) + 1) * subtree_size(dmax, 64) == be_value(z) * subtree_size(
                        dmax,
                        64,
                    ) + subtree_size(dmax, 64)) by (nonlinear_arith);
                } else {
                    assert(path1.drop_last() =~= z.drop_last());
                }
                assert(dfs_rank(path1, dmax) > rank0);
                lemma_rank_bound(path1, dmax);
                lemma_num_task_keys_mono(tasks@, consensus_vec@.len() as int, task as int);
                if even {
                    assert(z.take(m - 1) =~= x_fail.take(m - 1));
                    assert(path1.take(m - 1) =~= x_fail.take(m - 1));
                    lemma_windows_agree(
                        key_ok,
                        tasks@,
                        x_fail,
                        path1,
                        consensus_vec@.len() as int,
                        m - 1,
                    );
                }
                let q1 = compared_len(consensus_vec@.len() as int, n as int);
                assert(q1 == m);
                assert(path1.take(q1) =~= path1);
                assert forall|b: Seq<bool>| is_solution(key_ok, tasks@, b) implies be_value(
                    path1.take(q1),
                ) <= be_value(b.take(q1)) by {
                }
            }
            proof {
                let path1 = consensus_vec@ + word_bits(current);
                assert(z.subrange(m - 64, m) =~= word_bits(c0));
                if even {
                    assert(path1 =~= z.drop_last().push(true));
                } else {
                    assert(path1 =~= word_bits(current));
                }
                lemma_fail_step(key_ok, tasks@, x_fail, z, c0, path1);
                k = k + 1;
            }
        }
        proof {
            assert(search_ends_at(key_ok, tasks@, k));
        }
        let ghost path = consensus_vec@ + word_bits(current);
        let bits = consensus_vec.dismantle(current);
        let r = ConsensusVector { bitvec: bits, hash_evaluations };
        proof {
            assert(r@ =~= path.take(n + 63));
            assert(path.take(n + 63).take(n + 63) =~= path.take(n + 63));
            lemma_windows_agree(key_ok, tasks@, path, r@, n as int, n + 63);
            lemma_observed_solution_is_solution(key_ok, tasks@, r@);
            assert forall|b: Seq<bool>| is_solution(key_ok, tasks@, b) implies be_value(r@)
                <= be_value(b) by {
                assert(b.take(n + 63) =~= b);
            }
        }
        r
    }

    /// The seed of task `task_idx`: the 64 bits from `task_idx` on.
    pub fn get_seed_at_task(&self, task_idx: usize) -> (r: Seed)
        requires
            task_idx + 64 <= self@.len(),
        ensures
            r == seed_at(self@, task_idx as int),
    {
        bitvec_load_be(&self.bitvec, task_idx, 64)
    }

    /// The number of times the search asked whether a seed fits a key
    /// (saturating at `u64::MAX`).
    pub fn hash_evaluations(&self) -> (r: u64)
        ensures
            r == self.spec_hash_evaluations(),
    {
        self.hash_evaluations
    }

    /// The number of bits of the consensus vector.
    pub fn variable_part_bit_size(&self) -> (r: usize)
        ensures
            r == self@.len(),
    {
        bitvec_len(&self.bitvec)
    }

    /// The number of set bits of the consensus vector.
    pub fn count_ones(&self) -> (r: usize)
        ensures
            r == count_true(self@),
    {
        bitvec_count_ones(&self.bitvec)
    }
}

/// A prefix of the zero word is zero.
proof fn lemma_prefix_of_zero_word(k: int)
    requires
        0 <= k <= 64,
    ensures
        be_value(word_bits(0).take(k)) == 0,
    decreases k,
{
    if k > 0 {
        lemma_prefix_of_zero_word(k - 1);
        assert(word_bits(0).take(k).drop_last() =~= word_bits(0).take(k - 1));
        let sh = (63 - (k - 1)) as u64;
        assert((0u64 >> sh) & 1u64 == 0u64) by (bit_vector);
    }
}

/// The task of a key: its group's first task plus its place among the
/// group's tasks.
#[verifier::opaque]
pub open spec fn task_of(iv: InsertionVec, key: HashCode) -> int {
    let g = group_of(key, iv@.len() as usize);
    let w = iv.group_width(g);
    iv.group_start(g) + fast_range_spec(task_hash(key, w as usize), w as usize)
}

/// Every key lies in a task of the task space.
pub proof fn lemma_task_of_in_range(iv: InsertionVec, key: HashCode)
    requires
        iv.wf(),
        iv@.len() > 0,
    ensures
        0 <= group_of(key, iv@.len() as usize) < iv@.len(),
        iv.group_start(group_of(key, iv@.len() as usize)) <= task_of(iv, key) < iv.group_start(
            group_of(key, iv@.len() as usize),
        ) + iv.group_width(group_of(key, iv@.len() as usize)),
        0 <= task_of(iv, key) < iv.total_tasks(),
{
    reveal(task_of);
    lemma_groups_tile(&iv);
    crate::insertion_vec::lemma_wf_facts(&iv);
    let g = group_of(key, iv@.len() as usize);
    let w = iv.group_width(g);
    crate::hasher::lemma_fast_range_bound(crate::hasher::group_hash(key), iv@.len() as usize);
    assert(0 <= g < iv@.len());
    assert(iv.group_start(g) + w == iv.group_start(g + 1));
    assert(w >= 1);
    crate::hasher::lemma_fast_range_bound(task_hash(key, w as usize), w as usize);
    crate::insertion_vec::lemma_group_start_mono(&iv, g + 1, iv@.len() as int);
    crate::insertion_vec::lemma_group_start_mono(&iv, 0, g);
}

/// The tasks of the consensus vector: task `t` lists, in increasing order,
/// the indices of the keys whose task is `t`.
pub fn get_consensus_tasks(
    codes: &Vec<HashCode>,
    insertion_vec: &InsertionVec,
    hasher: &RetrievalHasher,
) -> (r: Vec<Vec<usize>>)
    requires
        insertion_vec.wf(),
        insertion_vec@.len() > 0,
    ensures
        r.len() == insertion_vec.total_tasks(),
        is_bucketing(r@, codes.len() as int, |i: int| task_of(*insertion_vec, codes[i])),
        num_task_keys(r@, r.len() as int) == codes.len(),
{
    let total = insertion_vec.total_num_tasks();
    let mut r: Vec<Vec<usize>> = Vec::new();
    let mut t: usize = 0;
    while t < total
        invariant
            t <= total,
            r.len() == t,
            forall|h: int| 0 <= h < t ==> (#[trigger] r[h]).len() == 0,
        decreases total - t,
    {
        r.push(Vec::new());
        t = t + 1;
    }
    proof {
        lemma_num_task_keys_empty(r@, r.len() as int);
    }
    let ghost f = |i: int| task_of(*insertion_vec, codes[i]);
    let num_groups = insertion_vec.num_groups();
    let mut i: usize = 0;
    while i < codes.len()
        invariant
            i <= codes.len(),
            insertion_vec.wf(),
            insertion_vec@.len() > 0,
            num_groups == insertion_vec@.len(),
            r.len() == insertion_vec.total_tasks(),
            f == (|i: int| task_of(*insertion_vec, codes[i])),
            is_bucketing(r@, i as int, f),
            num_task_keys(r@, r.len() as int) == i,
        decreases codes.len() - i,
    {
        let k = codes[i];
        let gidx = hasher.hash_to_group(k, num_groups);
        proof {
            lemma_task_of_in_range(*insertion_vec, k);
            reveal(task_of);
        }
        let group_bounds = match insertion_vec.group_bounds(gidx) {
            Some(gb) => gb,
            None => {
                assert(false);
                return r;
            },
        };
        let offset = hasher.hash_to_task(k, group_bounds.width);
        let task = group_bounds.start + offset;
        let ghost r0 = r@;
        r[task].push(i);
        proof {
            reveal(task_of);
            assert(task == f(i as int));
            assert(r@[task as int]@ == r0[task as int]@.push(i));
            assert(forall|b: int| 0 <= b < r@.len() && b != task ==> r@[b] == r0[b]);
            lemma_bucketing_push(r0, r@, i as int, f);
            lemma_num_task_keys_push(r0, r@, task as int, r.len() as int);
        }
        i = i + 1;
    }
    r
}

/// `rotate_out` undoes `rotate_in`: committing the first bit of `current`
/// and then taking the last committed bit back restores both the committed
/// bits and `current`.
pub proof fn lemma_rotate_out_undoes_rotate_in(committed: Seq<bool>, current: Seed)
    ensures
        committed.push(bit_at(current, 0)).drop_last() == committed,
        seq![committed.push(bit_at(current, 0)).last()] + word_bits(current << 1u64).drop_last()
            == word_bits(current),
{
    lemma_word_bits_shl1(current);
    assert(committed.push(bit_at(current, 0)).drop_last() =~= committed);
    assert(seq![committed.push(bit_at(current, 0)).last()] + word_bits(current << 1u64).drop_last()
        =~= word_bits(current));
}

} // verus!

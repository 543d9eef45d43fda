//! The insertion vector: the number of insertions of every group, coded in
//! unary, from which the place of each group in the task space follows.
use vstd::prelude::*;
use vstd::layout::size_of;
use sux::rank_sel::{Rank9, SelectZeroAdapt};
use crate::select::{
    count_false, max_select_bits, select_bits, select_len, select_mem_size, select_zero,
    select_zero_adapt_new, rank9_new, sux_bits, sux_bitvec_push, sux_bitvec_with_capacity,
};
use crate::hasher::{HashCode, RetrievalHasher, fast_range_spec, group_hash};
use vstd::arithmetic::mul::{lemma_mul_inequality, lemma_mul_is_distributive_add};
use vstd::arithmetic::div_mod::{lemma_fundamental_div_mod, lemma_mod_multiples_basic, lemma_small_mod};

verus! {

/// The sum of the first `k` counts.
pub open spec fn psum(c: Seq<usize>, k: int) -> int
    decreases k,
{
    if k <= 0 {
        0
    } else {
        psum(c, k - 1) + c[k - 1]
    }
}

/// `n` set bits.
pub open spec fn ones(n: nat) -> Seq<bool> {
    Seq::new(n, |i: int| true)
}

/// The unary code of the counts: for every count, that many ones and a
/// zero as divider.
pub open spec fn unary(c: Seq<usize>) -> Seq<bool>
    decreases c.len(),
{
    if c.len() == 0 {
        Seq::empty()
    } else {
        unary(c.drop_last()) + ones(c.last() as nat) + seq![false]
    }
}

/// The position of the divider of group `g` in the unary code.
pub open spec fn zero_pos(c: Seq<usize>, g: int) -> int {
    psum(c, g + 1) + g
}

proof fn lemma_psum_nonneg(c: Seq<usize>, k: int)
    ensures
        psum(c, k) >= 0,
    decreases k,
{
    if k > 0 {
        lemma_psum_nonneg(c, k - 1);
    }
}

/// Partial sums grow with the number of counts summed.
pub proof fn lemma_psum_mono(c: Seq<usize>, j: int, k: int)
    requires
        0 <= j <= k,
    ensures
        psum(c, j) <= psum(c, k),
    decreases k - j,
{
    if j < k {
        lemma_psum_mono(c, j, k - 1);
    }
}

/// A partial sum only reads the counts it sums.
proof fn lemma_psum_prefix(c: Seq<usize>, d: Seq<usize>, k: int)
    requires
        0 <= k <= c.len(),
        k <= d.len(),
        forall|i: int| 0 <= i < k ==> c[i] == d[i],
    ensures
        psum(c, k) == psum(d, k),
    decreases k,
{
    if k > 0 {
        lemma_psum_prefix(c, d, k - 1);
    }
}

proof fn lemma_count_false_concat(a: Seq<bool>, b: Seq<bool>)
    ensures
        count_false(a + b) == count_false(a) + count_false(b),
    decreases b.len(),
{
    if b.len() == 0 {
        assert(a + b =~= a);
    } else {
        lemma_count_false_concat(a, b.drop_last());
        assert((a + b).drop_last() =~= a + b.drop_last());
    }
}

proof fn lemma_count_false_ones(n: nat)
    ensures
        count_false(ones(n)) == 0,
    decreases n,
{
    if n > 0 {
        lemma_count_false_ones((n - 1) as nat);
        assert(ones(n).drop_last() =~= ones((n - 1) as nat));
    }
}

/// The unary code has one bit per count and per insertion, and one zero
/// per count.
pub proof fn lemma_unary_len(c: Seq<usize>)
    ensures
        unary(c).len() == psum(c, c.len() as int) + c.len(),
        count_false(unary(c)) == c.len(),
    decreases c.len(),
{
    if c.len() > 0 {
        let d = c.drop_last();
        lemma_unary_len(d);
        lemma_psum_prefix(c, d, d.len() as int);
        lemma_count_false_concat(unary(d) + ones(c.last() as nat), seq![false]);
        lemma_count_false_concat(unary(d), ones(c.last() as nat));
        lemma_count_false_ones(c.last() as nat);
        assert(seq![false].drop_last() =~= Seq::<bool>::empty());
        assert(count_false(Seq::<bool>::empty()) == 0);
        assert(count_false(seq![false]) == 1);
    }
}

/// A zero of the unary code with `g` zeros before it is the divider of
/// group `g`.
pub proof fn lemma_unary_zero(c: Seq<usize>, p: int, g: int)
    requires
        0 <= p < unary(c).len(),
        !unary(c)[p],
        count_false(unary(c).take(p)) == g,
    ensures
        0 <= g < c.len(),
        p == zero_pos(c, g),
    decreases c.len(),
{
    let d = c.drop_last();
    let ud = unary(d);
    let k = c.last() as nat;
    let u = unary(c);
    lemma_unary_len(d);
    lemma_psum_prefix(c, d, d.len() as int);
    assert(u =~= ud + ones(k) + seq![false]);
    if p < ud.len() {
        assert(u.take(p) =~= ud.take(p));
        lemma_unary_zero(d, p, g);
        lemma_psum_prefix(c, d, g + 1);
    } else {
        assert(p == ud.len() + k);
        assert(u.take(p) =~= ud + ones(k));
        lemma_count_false_concat(ud, ones(k));
        lemma_count_false_ones(k);
    }
}

/// Where a group lies in the task space.
#[derive(Clone, Copy, Debug, PartialEq, Eq)]
pub struct GroupBounds {
    pub start: usize,
    pub width: usize,
}

/// The insertion vector: group `g` has `b + ell_g * beta` tasks, where
/// `ell_g` is its number of insertions; the groups lie side by side in the
/// task space in the order of their indices.
pub struct InsertionVec {
    num_groups: usize,
    select: SelectZeroAdapt<Rank9>,
    b: usize,
    beta: usize,
    select_bytes: usize,
    insertions: Ghost<Seq<usize>>,
}

impl InsertionVec {
    /// The number of insertions of every group.
    pub closed spec fn view(&self) -> Seq<usize> {
        self.insertions@
    }

    /// The width of a group without insertions.
    pub closed spec fn spec_b(&self) -> int {
        self.b as int
    }

    /// The number of tasks that one insertion adds to a group.
    pub closed spec fn spec_beta(&self) -> int {
        self.beta as int
    }

    /// The bytes that the unary code and its select index occupy, as
    /// measured when the structure was built.
    pub closed spec fn spec_select_bytes(&self) -> int {
        self.select_bytes as int
    }

    /// The bits of the unary code and its index: its bytes times eight,
    /// wrapping at `usize::MAX`.
    pub open spec fn variable_bits(&self) -> int {
        (self.spec_select_bytes() * 8) % (usize::MAX as int + 1)
    }

    /// The bytes of the whole structure: those of the select index and of
    /// three words, wrapping at `usize::MAX`.
    pub open spec fn bytes(&self) -> int {
        (self.spec_select_bytes() + 3 * size_of::<usize>()) % (usize::MAX as int + 1)
    }

    /// The select index codes the insertion counts, and the task space fits
    /// in a `usize`.
    pub closed spec fn wf(&self) -> bool {
        &&& select_bits(self.select) == unary(self.insertions@)
        &&& self.num_groups == self.insertions@.len()
        &&& self.b > 0
        &&& self.total_tasks() <= usize::MAX
        &&& self.select_bytes * 8 >= select_bits(self.select).len()
    }

    /// The first task of group `g`.
    pub open spec fn group_start(&self, g: int) -> int {
        g * self.spec_b() + psum(self@, g) * self.spec_beta()
    }

    /// The number of tasks of group `g`.
    pub open spec fn group_width(&self, g: int) -> int {
        self.spec_b() + self@[g] * self.spec_beta()
    }

    /// The number of tasks of all groups.
    pub open spec fn total_tasks(&self) -> int {
        self@.len() * self.spec_b() + psum(self@, self@.len() as int) * self.spec_beta()
    }

    /// Codes `num_insertions_per_group` in unary (every count as that many
    /// ones followed by a zero) and indexes the code for selection of zeros.
    pub fn new(num_insertions_per_group: &Vec<usize>, b: usize, beta: usize) -> (r: Self)
        requires
            b > 0,
            num_insertions_per_group.len() * b + psum(
                num_insertions_per_group@,
                num_insertions_per_group.len() as int,
            ) * beta <= usize::MAX,
            psum(num_insertions_per_group@, num_insertions_per_group.len() as int)
                + num_insertions_per_group.len() <= max_select_bits(),
        ensures
            r.wf(),
            r@ == num_insertions_per_group@,
            r.spec_b() == b,
            r.spec_beta() == beta,
    {
        let counts = num_insertions_per_group;
        let n = counts.len();
        let ghost c = counts@;
        let mut sum: usize = 0;
        let mut g: usize = 0;
        while g < n
            invariant
                n == c.len(),
                c == counts@,
                g <= n,
                sum == psum(c, g as int),
                psum(c, n as int) + n <= max_select_bits(),
            decreases n - g,
        {
            proof {
                lemma_psum_mono(c, g + 1, n as int);
            }
            sum = sum + counts[g];
            g = g + 1;
        }
        let mut bits = sux_bitvec_with_capacity(sum + n);
        let mut g: usize = 0;
        while g < n
            invariant
                n == c.len(),
                c == counts@,
                g <= n,
                sux_bits(bits) == unary(c.take(g as int)),
                psum(c, n as int) + n <= max_select_bits(),
            decreases n - g,
        {
            let ell = counts[g];
            let ghost before = sux_bits(bits);
            proof {
                lemma_unary_len(c.take(g as int));
                lemma_psum_prefix(c.take(g as int), c, g as int);
                lemma_psum_mono(c, g + 1, n as int);
            }
            let mut i: usize = 0;
            while i < ell
                invariant
                    i <= ell,
                    sux_bits(bits) == before + ones(i as nat),
                    before.len() + ell + 1 <= max_select_bits(),
                decreases ell - i,
            {
                sux_bitvec_push(&mut bits, true);
                i = i + 1;
                assert(sux_bits(bits) =~= before + ones(i as nat));
            }
            sux_bitvec_push(&mut bits, false);
            proof {
                assert(c.take(g + 1).drop_last() =~= c.take(g as int));
                assert(sux_bits(bits) =~= unary(c.take(g + 1)));
            }
            g = g + 1;
        }
        proof {
            assert(c.take(n as int) =~= c);
            lemma_unary_len(c);
        }
        let select = select_zero_adapt_new(rank9_new(bits));
        let select_bytes = select_mem_size(&select);
        InsertionVec { num_groups: n, select, b, beta, select_bytes, insertions: Ghost(c) }
    }

    /// The number of groups.
    pub fn num_groups(&self) -> (r: usize)
        requires
            self.wf(),
        ensures
            r == self@.len(),
    {
        self.num_groups
    }

    /// The first task and the number of tasks of group `group_idx`, or
    /// `None` if there is no such group.
    pub fn group_bounds(&self, group_idx: usize) -> (r: Option<GroupBounds>)
        requires
            self.wf(),
        ensures
            r is Some <==> group_idx < self@.len(),
            r matches Some(gb) ==> gb.start == self.group_start(group_idx as int) && gb.width
                == self.group_width(group_idx as int),
    {
        if group_idx >= self.num_groups {
            return None;
        }
        let ghost c = self@;
        proof {
            lemma_unary_len(c);
        }
        let ins_end = match select_zero(&self.select, group_idx) {
            Some(p) => p,
            None => return None,
        };
        proof {
            lemma_unary_zero(c, ins_end as int, group_idx as int);
        }
        let ins_start = if group_idx == 0 {
            0
        } else {
            match select_zero(&self.select, group_idx - 1) {
                Some(p) => {
                    proof {
                        lemma_unary_zero(c, p as int, group_idx - 1);
                    }
                    p + 1
                },
                None => return None,
            }
        };
        proof {
            lemma_psum_nonneg(c, group_idx as int);
            lemma_bounds_fit(self, group_idx as int);
        }
        let num_insertions = ins_end - ins_start;
        let group_width = self.b + num_insertions * self.beta;
        let insertions_in_prior_groups = if group_idx > 0 {
            ins_start - group_idx
        } else {
            0
        };
        let group_start = group_idx * self.b + insertions_in_prior_groups * self.beta;
        Some(GroupBounds { start: group_start, width: group_width })
    }

    /// The number of tasks of all groups.
    pub fn total_num_tasks(&self) -> (r: usize)
        requires
            self.wf(),
        ensures
            r == self.total_tasks(),
    {
        proof {
            lemma_unary_len(self@);
            let p = psum(self@, self@.len() as int);
            lemma_psum_nonneg(self@, self@.len() as int);
            let b = self.spec_b();
            let beta = self.spec_beta();
            let n = self@.len() as int;
            assert(beta * p == p * beta && b * n == n * b && beta * p >= 0 && b * n >= 0)
                by (nonlinear_arith)
                requires
                    p >= 0,
                    beta >= 0,
                    b >= 0,
                    n >= 0,
            ;
        }
        self.beta * (select_len(&self.select) - self.num_groups) + self.b * self.num_groups
    }

    /// The number of bits of the unary code, without its index.
    pub fn raw_insertion_vec_bit_size(&self) -> (r: usize)
        requires
            self.wf(),
        ensures
            r == psum(self@, self@.len() as int) + self@.len(),
    {
        proof {
            lemma_unary_len(self@);
        }
        select_len(&self.select)
    }

    /// The bytes that the structure occupies (wrapping at `usize::MAX`):
    /// those of the select index and of the three words that describe the
    /// groups. Unless they wrap, they hold at least the bits of the unary
    /// code.
    pub fn space_in_bytes(&self) -> (r: usize)
        ensures
            r == self.bytes(),
            self.wf() && self.spec_select_bytes() + 3 * size_of::<usize>() <= usize::MAX ==> r * 8
                >= psum(self@, self@.len() as int) + self@.len(),
    {
        proof {
            broadcast use vstd::layout::layout_of_primitives;
            lemma_unary_len(self@);
            assert(size_of::<usize>() == 4 || size_of::<usize>() == 8);
        }
        let word = core::mem::size_of::<usize>();
        self.select_bytes.wrapping_add(word).wrapping_add(word).wrapping_add(word)
    }

    /// The bits of the unary code and its index (wrapping at `usize::MAX`):
    /// whole bytes, so a multiple of eight. Unless they wrap, they are at
    /// least the bits of the unary code.
    pub fn variable_part_bit_size(&self) -> (r: usize)
        ensures
            r == self.variable_bits(),
            r % 8 == 0,
            self.wf() && self.spec_select_bytes() * 8 <= usize::MAX ==> r >= psum(
                self@,
                self@.len() as int,
            ) + self@.len(),
    {
        proof {
            lemma_bytes_to_bits(self.select_bytes);
            lemma_unary_len(self@);
            if self.select_bytes * 8 <= usize::MAX {
                lemma_small_mod((self.select_bytes * 8) as nat, (usize::MAX + 1) as nat);
            }
        }
        self.select_bytes.wrapping_mul(u8::BITS as usize)
    }
}

/// The number of values of a `usize` is a multiple of eight.
pub(crate) proof fn lemma_usize_range_mod8()
    ensures
        (usize::MAX as int + 1) % 8 == 0,
{
    assert(usize::MAX as int == 0xffff_ffff || usize::MAX as int == 0xffff_ffff_ffff_ffff);
}

/// Bytes counted in bits, wrapping at `usize::MAX`, stay a multiple of
/// eight.
proof fn lemma_bytes_to_bits(m: usize)
    ensures
        ((m as nat * 8nat) % (usize::MAX as nat + 1)) % 8 == 0,
{
    lemma_usize_range_mod8();
    let big: int = usize::MAX as int + 1;
    let k: int = big / 8;
    let x: int = m as int * 8;
    lemma_fundamental_div_mod(x, big);
    lemma_fundamental_div_mod(big, 8);
    let q: int = x / big;
    assert(big * q == 8 * (k * q)) by (nonlinear_arith)
        requires
            big == 8 * k,
    ;
    assert(x % big == (m as int - k * q) * 8);
    lemma_mod_multiples_basic(m as int - k * q, 8);
}

/// A group ends where the next one starts, inside the task space.
proof fn lemma_bounds_fit(iv: &InsertionVec, g: int)
    requires
        iv.wf(),
        0 <= g < iv@.len(),
    ensures
        iv.group_start(g) + iv.group_width(g) == iv.group_start(g + 1),
        0 <= iv.group_start(g),
        iv.group_start(g + 1) <= iv.total_tasks(),
{
    let c = iv@;
    let b = iv.spec_b();
    let beta = iv.spec_beta();
    lemma_psum_nonneg(c, g);
    lemma_psum_mono(c, g + 1, c.len() as int);
    lemma_mul_is_distributive_add(b, g, 1);
    lemma_mul_is_distributive_add(beta, psum(c, g), c[g] as int);
    assert((g + 1) * b == g * b + b) by (nonlinear_arith);
    assert((psum(c, g) + c[g]) * beta == psum(c, g) * beta + c[g] * beta) by (nonlinear_arith);
    lemma_mul_inequality(g + 1, c.len() as int, b);
    lemma_mul_inequality(psum(c, g + 1), psum(c, c.len() as int), beta);
    assert(0 <= g * b) by (nonlinear_arith)
        requires
            g >= 0,
            b >= 0,
    ;
    assert(0 <= psum(c, g) * beta) by (nonlinear_arith)
        requires
            psum(c, g) >= 0,
            beta >= 0,
    ;
    assert(c.len() * b == (c.len() as int) * b);
}

/// The groups lie side by side in the task space: group 0 starts at task
/// 0, every group starts where the one before it ends, the last one ends
/// at the number of all tasks, and no group has fewer than `b` tasks.
pub proof fn lemma_groups_tile(iv: &InsertionVec)
    requires
        iv.wf(),
    ensures
        iv.group_start(0) == 0,
        forall|g: int|
            0 <= g < iv@.len() ==> #[trigger] iv.group_start(g) + iv.group_width(g)
                == iv.group_start(g + 1) && iv.group_width(g) >= iv.spec_b(),
        iv.group_start(iv@.len() as int) == iv.total_tasks(),
{
    assert forall|g: int| 0 <= g < iv@.len() implies #[trigger] iv.group_start(g)
        + iv.group_width(g) == iv.group_start(g + 1) && iv.group_width(g) >= iv.spec_b() by {
        lemma_bounds_fit(iv, g);
        assert(iv@[g] * iv.spec_beta() >= 0) by (nonlinear_arith)
            requires
                iv@[g] >= 0,
                iv.spec_beta() >= 0,
        ;
    }
}

/// Groups start in the order of their indices.
pub proof fn lemma_group_start_mono(iv: &InsertionVec, g: int, h: int)
    requires
        iv.wf(),
        0 <= g <= h <= iv@.len(),
    ensures
        iv.group_start(g) <= iv.group_start(h),
        0 <= iv.group_start(g),
{
    let c = iv@;
    let b = iv.spec_b();
    let beta = iv.spec_beta();
    lemma_psum_mono(c, g, h);
    lemma_psum_nonneg(c, g);
    let pg = psum(c, g);
    let ph = psum(c, h);
    assert(g * b <= h * b && pg * beta <= ph * beta && 0 <= g * b && 0 <= pg * beta)
        by (nonlinear_arith)
        requires
            0 <= g <= h,
            0 <= pg <= ph,
            b >= 0,
            beta >= 0,
    ;
}

/// A well-formed insertion vector has groups of at least one task, and its
/// task space fits in a `usize`.
pub proof fn lemma_wf_facts(iv: &InsertionVec)
    requires
        iv.wf(),
    ensures
        iv.spec_b() > 0,
        iv.spec_beta() >= 0,
        iv.total_tasks() <= usize::MAX,
{
}

/// `r` sorts the indices `0..n` into buckets by `bucket_of`: every bucket
/// lists, in increasing order, exactly the indices that belong to it.
pub open spec fn is_bucketing(r: Seq<Vec<usize>>, n: int, bucket_of: spec_fn(int) -> int) -> bool {
    &&& forall|b: int, j: int|
        0 <= b < r.len() && 0 <= j < r[b].len() ==> 0 <= #[trigger] r[b][j] < n
            && bucket_of(r[b][j] as int) == b
    &&& forall|b: int, j1: int, j2: int|
        0 <= b < r.len() && 0 <= j1 < j2 < r[b].len() ==> #[trigger] r[b][j1] < #[trigger] r[b][j2]
    &&& forall|i: int|
        0 <= i < n ==> 0 <= #[trigger] bucket_of(i) < r.len() && r[bucket_of(i)]@.contains(
            i as usize,
        )
}

/// The group of a key among `num_groups` groups.
pub open spec fn group_of(key: HashCode, num_groups: usize) -> int {
    fast_range_spec(group_hash(key), num_groups)
}

/// The indices of the keys of every group.
pub fn keys_per_group(hasher: &RetrievalHasher, codes: &Vec<HashCode>, num_groups: usize) -> (r: Vec<
    Vec<usize>,
>)
    requires
        num_groups > 0,
    ensures
        r.len() == num_groups,
        is_bucketing(r@, codes.len() as int, |i: int| group_of(codes[i], num_groups)),
{
    let mut r: Vec<Vec<usize>> = Vec::new();
    let mut g: usize = 0;
    while g < num_groups
        invariant
            g <= num_groups,
            r.len() == g,
            forall|h: int| 0 <= h < g ==> (#[trigger] r[h]).len() == 0,
        decreases num_groups - g,
    {
        r.push(Vec::new());
        g = g + 1;
    }
    let ghost f = |i: int| group_of(codes[i], num_groups);
    let mut i: usize = 0;
    while i < codes.len()
        invariant
            i <= codes.len(),
            num_groups > 0,
            r.len() == num_groups,
            f == (|i: int| group_of(codes[i], num_groups)),
            is_bucketing(r@, i as int, f),
        decreases codes.len() - i,
    {
        let group = hasher.hash_to_group(codes[i], num_groups);
        let ghost r0 = r@;
        r[group].push(i);
        proof {
            assert(r@[group as int]@ == r0[group as int]@.push(i));
            assert(forall|b: int| 0 <= b < r@.len() && b != group ==> r@[b] == r0[b]);
            lemma_bucketing_push(r0, r@, i as int, f);
        }
        i = i + 1;
    }
    r
}

/// Appending index `n` to its bucket keeps a bucketing.
pub proof fn lemma_bucketing_push(
    r0: Seq<Vec<usize>>,
    r1: Seq<Vec<usize>>,
    n: int,
    bucket_of: spec_fn(int) -> int,
)
    requires
        0 <= n < usize::MAX,
        is_bucketing(r0, n, bucket_of),
        r1.len() == r0.len(),
        0 <= bucket_of(n) < r0.len(),
        r1[bucket_of(n)]@ == r0[bucket_of(n)]@.push(n as usize),
        forall|b: int| 0 <= b < r1.len() && b != bucket_of(n) ==> r1[b] == r0[b],
    ensures
        is_bucketing(r1, n + 1, bucket_of),
{
    let g = bucket_of(n);
    assert forall|b: int, j: int| 0 <= b < r1.len() && 0 <= j < r1[b].len() implies 0
        <= #[trigger] r1[b][j] < n + 1 && bucket_of(r1[b][j] as int) == b by {
        if b != g || j < r0[b].len() {
            assert(r1[b][j] == r0[b][j]);
        }
    }
    assert forall|b: int, j1: int, j2: int|
        0 <= b < r1.len() && 0 <= j1 < j2 < r1[b].len() implies #[trigger] r1[b][j1]
        < #[trigger] r1[b][j2] by {
        if b == g && j2 == r0[b].len() {
            assert(r0[b][j1] < n);
            assert(r1[b][j1] == r0[b][j1]);
        } else {
            assert(r1[b][j1] == r0[b][j1]);
            assert(r1[b][j2] == r0[b][j2]);
        }
    }
    assert forall|k: int| 0 <= k < n + 1 implies 0 <= #[trigger] bucket_of(k) < r1.len()
        && r1[bucket_of(k)]@.contains(k as usize) by {
        if k < n {
            assert(r0[bucket_of(k)]@.contains(k as usize));
            let j = choose|j: int|
                0 <= j < r0[bucket_of(k)]@.len() && #[trigger] r0[bucket_of(k)]@[j] == k as usize;
            assert(r1[bucket_of(k)]@[j] == k as usize);
        } else {
            assert(r1[g]@[r0[g]@.len() as int] == k as usize);
        }
    }
}

} // verus!

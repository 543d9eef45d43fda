//! The order in which the consensus search visits bit strings: depth-first,
//! zeros before ones, below a first level of 64-bit root seeds taken in
//! increasing order. `dfs_rank` numbers the strings in that order.
use vstd::prelude::*;
use crate::bits::{be_value, lemma_be_value_bound};
use vstd::arithmetic::power2::{pow2, lemma_pow2_unfold, lemma_pow2_pos, lemma2_to64};
use vstd::arithmetic::mul::{lemma_mul_inequality, lemma_mul_is_distributive_add};

verus! {

/// The number of strings of length `l..=dmax` that extend a given string
/// of length `l` (itself included).
pub open spec fn subtree_size(dmax: nat, l: nat) -> nat {
    (pow2((dmax + 1 - l) as nat) - 1) as nat
}

/// The position of `x` (of length `64..=dmax`) in depth-first order.
pub open spec fn dfs_rank(x: Seq<bool>, dmax: nat) -> nat
    decreases x.len(),
{
    if x.len() <= 64 {
        be_value(x) * subtree_size(dmax, 64)
    } else {
        dfs_rank(x.drop_last(), dmax) + 1 + if x.last() {
            subtree_size(dmax, x.len())
        } else {
            0
        }
    }
}

/// Dropping a run of trailing ones lowers the rank by a difference of
/// powers of two.
pub proof fn lemma_rank_ones_suffix(x: Seq<bool>, m: int, dmax: nat)
    requires
        64 <= m <= x.len() <= dmax,
        forall|i: int| m <= i < x.len() ==> x[i],
    ensures
        dfs_rank(x, dmax) + pow2((dmax + 1 - x.len()) as nat) == dfs_rank(x.take(m), dmax)
            + pow2((dmax + 1 - m) as nat),
    decreases x.len() - m,
{
    if x.len() == m {
        assert(x.take(m) =~= x);
    } else {
        let y = x.drop_last();
        assert(y.take(m) =~= x.take(m));
        lemma_rank_ones_suffix(y, m, dmax);
        lemma_pow2_unfold((dmax + 1 - y.len()) as nat);
        lemma_pow2_pos((dmax + 1 - x.len()) as nat);
    }
}

/// The rank of a string stays below the rank of the next root seed.
pub proof fn lemma_rank_below_next_root(x: Seq<bool>, dmax: nat)
    requires
        64 <= x.len() <= dmax,
    ensures
        dfs_rank(x, dmax) + pow2((dmax + 1 - x.len()) as nat) <= be_value(x.take(64))
            * subtree_size(dmax, 64) + pow2((dmax + 1 - 64) as nat),
    decreases x.len(),
{
    if x.len() == 64 {
        assert(x.take(64) =~= x);
    } else {
        let y = x.drop_last();
        assert(y.take(64) =~= x.take(64));
        lemma_rank_below_next_root(y, dmax);
        lemma_pow2_unfold((dmax + 1 - y.len()) as nat);
        lemma_pow2_pos((dmax + 1 - x.len()) as nat);
    }
}

/// Every rank is below `2^64` times the size of a root's subtree.
pub proof fn lemma_rank_bound(x: Seq<bool>, dmax: nat)
    requires
        64 <= x.len() <= dmax,
    ensures
        dfs_rank(x, dmax) < pow2(64) * subtree_size(dmax, 64),
{
    lemma_rank_below_next_root(x, dmax);
    let k = (dmax + 1 - x.len()) as nat;
    lemma_pow2_unfold(k);
    lemma_pow2_pos((k - 1) as nat);
    lemma_pow2_unfold((dmax + 1 - 64) as nat);
    lemma_pow2_pos((dmax - 64) as nat);
    lemma_be_value_bound(x.take(64));
    let b = be_value(x.take(64)) as int;
    let t = subtree_size(dmax, 64) as int;
    assert(pow2(k) >= 2);
    assert(t + 1 == pow2((dmax + 1 - 64) as nat));
    assert(t >= 1);
    assert(b + 1 <= pow2(64));
    lemma_mul_inequality(b + 1, pow2(64) as int, t);
    lemma_mul_is_distributive_add(t, b, 1);
    assert((b + 1) * t == b * t + t) by (nonlinear_arith);
    assert(dfs_rank(x, dmax) + 2 <= b * t + t + 1);
    assert((b + 1) * t <= pow2(64) * t);
}

} // verus!

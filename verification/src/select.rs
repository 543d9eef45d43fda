//! The unary code of the insertion counts, kept in a `sux` bit vector with
//! a `Rank9` index and selection on zeros (`SelectZeroAdapt`).
use vstd::prelude::*;
use mem_dbg::{MemSize, SizeFlags};
use sux::bits::BitVec;
use sux::rank_sel::{BlockCounters, Rank9, SelectZeroAdapt};
use sux::traits::SelectZero;

verus! {

#[verifier::external_type_specification]
#[verifier::external_body]
#[verifier::reject_recursive_types(B)]
pub struct ExSuxBitVec<B>(BitVec<B>);

#[verifier::external_type_specification]
#[verifier::external_body]
pub struct ExBlockCounters(BlockCounters);

#[verifier::external_type_specification]
#[verifier::external_body]
#[verifier::reject_recursive_types(B)]
#[verifier::reject_recursive_types(C)]
pub struct ExRank9<B, C>(Rank9<B, C>);

#[verifier::external_type_specification]
#[verifier::external_body]
#[verifier::reject_recursive_types(B)]
#[verifier::reject_recursive_types(I)]
pub struct ExSelectZeroAdapt<B, I>(SelectZeroAdapt<B, I>);

/// The bits that a `sux` bit vector holds, in index order.
pub uninterp spec fn sux_bits(v: BitVec) -> Seq<bool>;

/// The bits that a `Rank9` index is built over.
pub uninterp spec fn rank9_bits(r: Rank9) -> Seq<bool>;

/// The bits that a `SelectZeroAdapt` selects in.
pub uninterp spec fn select_bits(s: SelectZeroAdapt<Rank9>) -> Seq<bool>;

/// The largest number of bits that `SelectZeroAdapt` indexes on every
/// platform (`usize::MAX >> 2` on 64-bit ones).
pub open spec fn max_select_bits() -> int {
    usize::MAX as int / 4
}

/// The number of unset bits in `s`.
pub open spec fn count_false(s: Seq<bool>) -> nat
    decreases s.len(),
{
    if s.len() == 0 {
        0
    } else {
        count_false(s.drop_last()) + if s.last() { 0nat } else { 1nat }
    }
}

/// `sux::bits::BitVec::with_capacity`: an empty bit vector.
#[verifier::external_body]
pub(crate) fn sux_bitvec_with_capacity(capacity: usize) -> (r: BitVec)
    ensures
        sux_bits(r) == Seq::<bool>::empty(),
{
    BitVec::with_capacity(capacity)
}

/// `sux::bits::BitVec::push`: appends a bit.
#[verifier::external_body]
pub(crate) fn sux_bitvec_push(v: &mut BitVec, b: bool)
    requires
        sux_bits(*old(v)).len() < usize::MAX,
    ensures
        sux_bits(*final(v)) == sux_bits(*old(v)).push(b),
{
    v.push(b)
}

/// `Rank9::new`: a rank index over the bits.
#[verifier::external_body]
pub(crate) fn rank9_new(bits: BitVec) -> (r: Rank9)
    ensures
        rank9_bits(r) == sux_bits(bits),
{
    Rank9::new(bits)
}

/// `SelectZeroAdapt::new`: a selection index on zeros over the bits.
#[verifier::external_body]
pub(crate) fn select_zero_adapt_new(rank9: Rank9) -> (r: SelectZeroAdapt<Rank9>)
    requires
        rank9_bits(rank9).len() <= max_select_bits(),
    ensures
        select_bits(r) == rank9_bits(rank9),
{
    SelectZeroAdapt::new(rank9)
}

/// `SelectZero::select_zero`: the position of the zero of rank `rank`
/// (the one with `rank` zeros before it), or `None` if there are at most
/// `rank` zeros.
#[verifier::external_body]
pub(crate) fn select_zero(s: &SelectZeroAdapt<Rank9>, rank: usize) -> (r: Option<usize>)
    ensures
        r is Some <==> rank < count_false(select_bits(*s)),
        r matches Some(p) ==> p < select_bits(*s).len() && !select_bits(*s)[p as int]
            && count_false(select_bits(*s).take(p as int)) == rank,
{
    s.select_zero(rank)
}

/// `SelectZeroAdapt::len`: the number of bits.
#[verifier::external_body]
pub(crate) fn select_len(s: &SelectZeroAdapt<Rank9>) -> (r: usize)
    ensures
        r == select_bits(*s).len(),
{
    s.len()
}

/// `MemSize::mem_size` with the default flags: the bytes that the
/// structure occupies. The bits are held in machine words, which are
/// counted by the length of their vector, so the bytes hold at least as
/// many bits as the structure indexes; the exact number, which depends on
/// the width of a word, is not stated.
#[verifier::external_body]
pub(crate) fn select_mem_size(s: &SelectZeroAdapt<Rank9>) -> (r: usize)
    ensures
        r * 8 >= select_bits(*s).len(),
{
    s.mem_size(SizeFlags::default())
}

} // verus!

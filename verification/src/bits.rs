//! The growable bit sequence that holds the consensus vector, kept in a
//! `bitvec::vec::BitVec<u64, Msb0>`, with the spec functions that read
//! machine words as bit sequences.
use vstd::prelude::*;
use bitvec::order::Msb0;
use bitvec::vec::BitVec;
use bitvec::field::BitField;
use vstd::arithmetic::power2::{pow2, lemma2_to64, lemma2_to64_rest, lemma_pow2_unfold, lemma_pow2_strictly_increases};

verus! {

/// A `bitvec::vec::BitVec<u64, Msb0>`, kept behind a field that Verus
/// does not read; its contents are `bitvec_bits`.
#[verifier::external_body]
pub struct MsbBitVec {
    inner: BitVec<u64, Msb0>,
}

/// The bits that an `MsbBitVec` holds, in index order.
pub uninterp spec fn bitvec_bits(v: MsbBitVec) -> Seq<bool>;

/// The largest number of bits that a bit vector can hold.
pub open spec fn max_bits() -> int {
    usize::MAX as int / 8
}

/// Bit `i` of `x`, counting from the most significant bit (`i == 0`).
pub open spec fn bit_at(x: u64, i: int) -> bool {
    (x >> ((63 - i) as u64)) & 1 == 1
}

/// The 64 bits of `x`, most significant first: the order in which an
/// `Msb0` bit vector made from `x` holds them.
pub open spec fn word_bits(x: u64) -> Seq<bool> {
    Seq::new(64, |i: int| bit_at(x, i))
}

/// The number that `s` denotes when read as a big-endian binary numeral.
pub open spec fn be_value(s: Seq<bool>) -> nat
    decreases s.len(),
{
    if s.len() == 0 {
        0
    } else {
        2 * be_value(s.drop_last()) + if s.last() { 1nat } else { 0nat }
    }
}

/// The number of set bits in `s`.
pub open spec fn count_true(s: Seq<bool>) -> nat
    decreases s.len(),
{
    if s.len() == 0 {
        0
    } else {
        count_true(s.drop_last()) + if s.last() { 1nat } else { 0nat }
    }
}

proof fn lemma_bit_shl1(x: u64, i: u64)
    by (bit_vector)
    requires
        i < 63,
    ensures
        ((x << 1u64) >> ((63u64 - i) as u64)) & 1u64 == (x >> ((63u64 - (i + 1u64)) as u64)) & 1u64,
        ((x << 1u64) >> 0u64) & 1u64 == 0u64,
{
}

proof fn lemma_bit_shl1_or(c: u64, x: u64, i: u64)
    by (bit_vector)
    requires
        i < 63,
    ensures
        (((c << 1u64) | (x >> 63u64)) >> ((63u64 - i) as u64)) & 1u64 == (c >> ((63u64 - (i + 1u64)) as u64))
            & 1u64,
        (((c << 1u64) | (x >> 63u64)) >> 0u64) & 1u64 == (x >> 63u64) & 1u64,
{
}

proof fn lemma_bit_shr1_or(c: u64, x: u64, i: u64)
    by (bit_vector)
    requires
        0 < i < 64,
    ensures
        (((c << 63u64) | (x >> 1u64)) >> ((63u64 - i) as u64)) & 1u64 == (x >> ((63u64 - (i - 1u64)) as u64))
            & 1u64,
        (((c << 63u64) | (x >> 1u64)) >> 63u64) & 1u64 == (c >> 0u64) & 1u64,
{
}

proof fn lemma_bit_shr1(c: u64, i: u64)
    by (bit_vector)
    requires
        0 < i < 64,
    ensures
        ((c >> 1u64) >> ((63u64 - i) as u64)) & 1u64 == (c >> ((63u64 - (i - 1u64)) as u64)) & 1u64,
        ((c >> 1u64) >> 63u64) & 1u64 == 0u64,
{
}

proof fn lemma_bit_inc(x: u64, i: u64)
    by (bit_vector)
    requires
        i < 63,
        x & 1u64 == 0u64,
    ensures
        (((x + 1u64) as u64) >> ((63u64 - i) as u64)) & 1u64 == (x >> ((63u64 - i) as u64)) & 1u64,
        (((x + 1u64) as u64) >> 0u64) & 1u64 == 1u64,
{
}

/// Shifting left by one drops the first bit and appends a zero.
pub proof fn lemma_word_bits_shl1(x: u64)
    ensures
        word_bits(x << 1u64) == word_bits(x).drop_first().push(false),
{
    assert forall|i: int| 0 <= i < 63 implies bit_at(x << 1u64, i) == bit_at(x, i + 1) by {
        lemma_bit_shl1(x, i as u64);
    }
    lemma_bit_shl1(x, 0);
    assert(word_bits(x << 1u64) =~= word_bits(x).drop_first().push(false));
}

/// Shifting the pair `(c, x)` left by one as a 128-bit number moves the
/// first bit of `x` to the end of `c`.
pub proof fn lemma_word_bits_shl1_or(c: u64, x: u64)
    ensures
        word_bits((c << 1u64) | (x >> 63u64)) == word_bits(c).drop_first().push(bit_at(x, 0)),
{
    assert forall|i: int| 0 <= i < 63 implies bit_at((c << 1u64) | (x >> 63u64), i) == bit_at(
        c,
        i + 1,
    ) by {
        lemma_bit_shl1_or(c, x, i as u64);
    }
    lemma_bit_shl1_or(c, x, 0);
    assert(word_bits((c << 1u64) | (x >> 63u64)) =~= word_bits(c).drop_first().push(
        bit_at(x, 0),
    ));
}

/// Shifting the pair `(c, x)` right by one as a 128-bit number moves the
/// last bit of `c` to the front of `x`.
pub proof fn lemma_word_bits_shr1_or(c: u64, x: u64)
    ensures
        word_bits((c << 63u64) | (x >> 1u64)) == seq![bit_at(c, 63)] + word_bits(x).drop_last(),
{
    assert forall|i: int| 0 < i < 64 implies bit_at((c << 63u64) | (x >> 1u64), i) == bit_at(
        x,
        i - 1,
    ) by {
        lemma_bit_shr1_or(c, x, i as u64);
    }
    lemma_bit_shr1_or(c, x, 1);
    assert(word_bits((c << 63u64) | (x >> 1u64)) =~= seq![bit_at(c, 63)] + word_bits(
        x,
    ).drop_last());
}

/// Shifting right by one drops the last bit and prepends a zero.
pub proof fn lemma_word_bits_shr1(c: u64)
    ensures
        word_bits(c >> 1u64) == seq![false] + word_bits(c).drop_last(),
{
    assert forall|i: int| 0 < i < 64 implies bit_at(c >> 1u64, i) == bit_at(c, i - 1) by {
        lemma_bit_shr1(c, i as u64);
    }
    lemma_bit_shr1(c, 1);
    assert(word_bits(c >> 1u64) =~= seq![false] + word_bits(c).drop_last());
}

/// Adding one to an even word sets its last bit.
pub proof fn lemma_word_bits_inc_even(x: u64)
    requires
        x & 1 == 0,
    ensures
        x < u64::MAX,
        word_bits((x + 1) as u64) == word_bits(x).drop_last().push(true),
{
    assert(x & 1u64 == 0u64 ==> x < 0xffff_ffff_ffff_ffffu64) by (bit_vector);
    assert forall|i: int| 0 <= i < 63 implies bit_at((x + 1) as u64, i) == bit_at(x, i) by {
        lemma_bit_inc(x, i as u64);
    }
    lemma_bit_inc(x, 0);
    assert(word_bits((x + 1) as u64) =~= word_bits(x).drop_last().push(true));
}

proof fn lemma_shr_step(x: u64, t: u64)
    by (bit_vector)
    requires
        t < 63,
    ensures
        x >> t == (x >> (t + 1u64)) * 2u64 + ((x >> t) & 1u64),
        x >> 63u64 == (x >> 63u64) & 1u64,
{
}

proof fn lemma_double_shr(v: u64, b: u64, t: u64)
    by (bit_vector)
    requires
        v < 0x8000_0000_0000_0000u64,
        b <= 1,
        1 <= t < 64,
    ensures
        (((v * 2u64 + b) as u64) >> t) == v >> ((t - 1u64) as u64),
        (((v * 2u64 + b) as u64) >> 0u64) & 1u64 == b,
{
}

/// The first `k` bits of a word spell the word shifted right by `64 - k`.
proof fn lemma_be_word_prefix(x: u64, k: int)
    requires
        1 <= k <= 64,
    ensures
        be_value(word_bits(x).take(k)) == x >> ((64 - k) as u64),
    decreases k,
{
    let w = word_bits(x);
    let t = (64 - k) as u64;
    assert((x >> t) & 1u64 <= 1u64) by (bit_vector);
    assert(w.take(k).last() == bit_at(x, k - 1));
    if k == 1 {
        lemma_shr_step(x, 0);
        assert(w.take(1).drop_last() =~= Seq::<bool>::empty());
        assert(be_value(Seq::<bool>::empty()) == 0);
        assert(be_value(w.take(1)) == if bit_at(x, 0) { 1nat } else { 0nat });
    } else {
        lemma_be_word_prefix(x, k - 1);
        assert(w.take(k).drop_last() =~= w.take(k - 1));
        lemma_shr_step(x, t);
    }
}

/// Reading the 64 bits of a word back as a big-endian numeral gives the word.
pub proof fn lemma_be_word(x: u64)
    ensures
        be_value(word_bits(x)) == x,
{
    lemma_be_word_prefix(x, 64);
    assert(word_bits(x).take(64) =~= word_bits(x));
    assert(x >> 0u64 == x) by (bit_vector);
}

/// A numeral of `k` bits is below `2^k`.
pub proof fn lemma_be_value_bound(s: Seq<bool>)
    ensures
        be_value(s) < pow2(s.len()),
    decreases s.len(),
{
    if s.len() == 0 {
        lemma2_to64();
    } else {
        lemma_be_value_bound(s.drop_last());
        lemma_pow2_unfold(s.len());
    }
}

/// A numeral of at most 64 bits, stored in a word, has those bits as the
/// word's last bits and zeros before them.
pub proof fn lemma_be_value_bits(s: Seq<bool>)
    requires
        s.len() <= 64,
    ensures
        be_value(s) <= u64::MAX,
        word_bits(be_value(s) as u64).subrange(64 - s.len(), 64) == s,
        forall|i: int| 0 <= i < 64 - s.len() ==> !#[trigger] bit_at(be_value(s) as u64, i),
    decreases s.len(),
{
    lemma_be_value_bound(s);
    lemma2_to64();
    lemma2_to64_rest();
    if s.len() == 0 {
        assert forall|i: int| 0 <= i < 64 implies !#[trigger] bit_at(0u64, i) by {
            let t = (63 - i) as u64;
            assert((0u64 >> t) & 1u64 == 0u64) by (bit_vector);
        }
        assert(word_bits(0u64).subrange(64, 64) =~= s);
    } else {
        let p = s.drop_last();
        let b: u64 = if s.last() { 1 } else { 0 };
        lemma_be_value_bits(p);
        lemma_be_value_bound(p);
        if p.len() < 63 {
            lemma_pow2_strictly_increases(p.len(), 63);
        }
        let v = be_value(p) as u64;
        assert(v < 0x8000_0000_0000_0000u64);
        assert(be_value(s) == v * 2 + b);
        let vs = be_value(s) as u64;
        assert forall|i: int| 0 <= i < 63 implies #[trigger] bit_at(vs, i) == bit_at(v, i + 1) by {
            lemma_double_shr(v, b, (63 - i) as u64);
        }
        lemma_double_shr(v, b, 1);
        assert(bit_at(vs, 63) == s.last());
        assert forall|j: int| 0 <= j < s.len() implies #[trigger] word_bits(vs).subrange(
            64 - s.len(),
            64,
        )[j] == s[j] by {
            if j < s.len() - 1 {
                assert(word_bits(v).subrange(64 - p.len(), 64)[j] == p[j]);
            }
        }
        assert forall|i: int| 0 <= i < 64 - s.len() implies !#[trigger] bit_at(vs, i) by {
            assert(!bit_at(v, i + 1));
        }
        assert(word_bits(vs).subrange(64 - s.len(), 64) =~= s);
    }
}

/// Two numerals of the same length are equal only if their bits are.
pub proof fn lemma_be_value_injective(a: Seq<bool>, b: Seq<bool>)
    requires
        a.len() == b.len(),
        be_value(a) == be_value(b),
    ensures
        a == b,
    decreases a.len(),
{
    if a.len() > 0 {
        lemma_be_value_injective(a.drop_last(), b.drop_last());
        assert(a =~= a.drop_last().push(a.last()));
        assert(b =~= b.drop_last().push(b.last()));
    } else {
        assert(a =~= b);
    }
}

/// Appending a bit doubles the numeral and adds the bit.
pub proof fn lemma_be_value_push(s: Seq<bool>, b: bool)
    ensures
        be_value(s.push(b)) == 2 * be_value(s) + if b { 1nat } else { 0nat },
{
    assert(s.push(b).drop_last() =~= s);
}

/// `BitVec::with_capacity`: an empty bit vector.
#[verifier::external_body]
pub(crate) fn bitvec_with_capacity(capacity: usize) -> (r: MsbBitVec)
    requires
        capacity <= max_bits(),
    ensures
        bitvec_bits(r) == Seq::<bool>::empty(),
{
    MsbBitVec { inner: BitVec::with_capacity(capacity) }
}

/// `BitVec::len`: the number of bits held.
#[verifier::external_body]
pub(crate) fn bitvec_len(v: &MsbBitVec) -> (r: usize)
    ensures
        r == bitvec_bits(*v).len(),
{
    v.inner.len()
}

/// `BitVec::is_empty`: whether no bit is held.
#[verifier::external_body]
pub(crate) fn bitvec_is_empty(v: &MsbBitVec) -> (r: bool)
    ensures
        r == (bitvec_bits(*v).len() == 0),
{
    v.inner.is_empty()
}

/// `BitVec::extend_from_bitslice`, applied to bits `from..to` of the
/// one-word vector `BitVec::from_element(word)`: appends those bits of
/// `word`, most significant first.
#[verifier::external_body]
pub(crate) fn bitvec_append_word_bits(v: &mut MsbBitVec, word: u64, from: usize, to: usize)
    requires
        from <= to <= 64,
        bitvec_bits(*old(v)).len() + (to - from) <= max_bits(),
    ensures
        bitvec_bits(*final(v)) == bitvec_bits(*old(v)) + word_bits(word).subrange(
            from as int,
            to as int,
        ),
{
    v.inner.extend_from_bitslice(&BitVec::<u64, Msb0>::from_element(word)[from..to])
}

/// `BitVec::split_off`: moves the bits from index `at` on into a new
/// bit vector.
#[verifier::external_body]
pub(crate) fn bitvec_split_off(v: &mut MsbBitVec, at: usize) -> (r: MsbBitVec)
    requires
        at <= bitvec_bits(*old(v)).len(),
    ensures
        bitvec_bits(*final(v)) == bitvec_bits(*old(v)).take(at as int),
        bitvec_bits(r) == bitvec_bits(*old(v)).skip(at as int),
{
    MsbBitVec { inner: v.inner.split_off(at) }
}

/// `BitVec::resize`: truncates to `new_len` bits, or pads with `value`.
#[verifier::external_body]
pub(crate) fn bitvec_resize(v: &mut MsbBitVec, new_len: usize, value: bool)
    requires
        new_len <= max_bits(),
    ensures
        new_len <= bitvec_bits(*old(v)).len() ==> bitvec_bits(*final(v)) == bitvec_bits(
            *old(v),
        ).take(new_len as int),
        new_len > bitvec_bits(*old(v)).len() ==> bitvec_bits(*final(v)) == bitvec_bits(*old(v))
            + Seq::new((new_len - bitvec_bits(*old(v)).len()) as nat, |i: int| value),
{
    v.inner.resize(new_len, value)
}

/// `BitField::load_be` on bits `start..start + len`: the big-endian
/// number that these bits spell.
#[verifier::external_body]
pub(crate) fn bitvec_load_be(v: &MsbBitVec, start: usize, len: usize) -> (r: u64)
    requires
        1 <= len <= 64,
        start + len <= bitvec_bits(*v).len(),
    ensures
        r == be_value(bitvec_bits(*v).subrange(start as int, start + len)),
{
    v.inner[start..start + len].load_be::<u64>()
}

/// `BitSlice::count_ones`: the number of set bits.
#[verifier::external_body]
pub(crate) fn bitvec_count_ones(v: &MsbBitVec) -> (r: usize)
    ensures
        r == count_true(bitvec_bits(*v)),
{
    v.inner.count_ones()
}

impl MsbBitVec {
    /// The number of bits.
    pub fn len(&self) -> (r: usize)
        ensures
            r == bitvec_bits(*self).len(),
    {
        bitvec_len(self)
    }

    /// The big-endian number spelled by bits `start..start + len`.
    pub fn load_be(&self, start: usize, len: usize) -> (r: u64)
        requires
            1 <= len <= 64,
            start + len <= bitvec_bits(*self).len(),
        ensures
            r == be_value(bitvec_bits(*self).subrange(start as int, start + len)),
    {
        bitvec_load_be(self, start, len)
    }
}

} // verus!

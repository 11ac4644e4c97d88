use vstd::prelude::*;
use bitvec::array::BitArray;
use bitvec::order::Lsb0;

verus! {

/// Number of bits of a [`FlagBits`] map.
pub const FLAG_BITS: usize = 4096;

/// A map of 4096 flag bits, one per heap word or handle slot, stored as a
/// `bitvec` bit array (`BitArr!(for 4096, in u64, Lsb0)`).
#[verifier::external_body]
pub struct FlagBits {
    bits: BitArray<[u64; 64], Lsb0>,
}

/// What a [`FlagBits`] map holds: element `i` is bit `i` of the map.
pub uninterp spec fn flag_bits(b: FlagBits) -> Seq<bool>;

impl FlagBits {
    /// `BitArray::ZERO`: a map whose 4096 bits (`size_of::<[u64; 64]>() * 8`)
    /// are all cleared.
    #[verifier::external_body]
    pub(crate) fn zero() -> (r: FlagBits)
        ensures
            flag_bits(r) == Seq::new(4096, |i: int| false),
    {
        FlagBits { bits: BitArray::ZERO }
    }

    /// `BitSlice::index`: the bit at `index`; it panics when `index` is not
    /// below the length, which `requires` rules out.
    #[verifier::external_body]
    pub(crate) fn get(&self, index: usize) -> (r: bool)
        requires
            index < flag_bits(*self).len(),
        ensures
            r == flag_bits(*self)[index as int],
    {
        self.bits[index]
    }

    /// `BitSlice::replace`: writes `value` at `index` and returns the bit that
    /// was there; the other bits stay. It panics when `index` is out of
    /// bounds, which `requires` rules out.
    #[verifier::external_body]
    pub(crate) fn replace(&mut self, index: usize, value: bool) -> (r: bool)
        requires
            index < flag_bits(*old(self)).len(),
        ensures
            r == flag_bits(*old(self))[index as int],
            flag_bits(*final(self)) == flag_bits(*old(self)).update(index as int, value),
    {
        self.bits.replace(index, value)
    }

    /// `BitSlice::any`: whether at least one bit is set.
    #[verifier::external_body]
    pub(crate) fn any(&self) -> (r: bool)
        ensures
            r == flag_bits(*self).contains(true),
    {
        self.bits.any()
    }

    /// `BitSlice::fill`: sets every bit to `value`; the length stays.
    #[verifier::external_body]
    pub(crate) fn fill(&mut self, value: bool)
        ensures
            flag_bits(*final(self)) == Seq::new(flag_bits(*old(self)).len(), |i: int| value),
    {
        self.bits.fill(value)
    }
}

/// The number of set bits among the first `n` bits of `bits`.
pub open spec fn count_used(bits: Seq<bool>, n: int) -> int
    decreases n,
{
    if n <= 0 {
        0
    } else {
        count_used(bits, n - 1) + if bits[n - 1] { 1int } else { 0int }
    }
}

pub proof fn lemma_count_used_bounds(bits: Seq<bool>, n: int)
    requires
        n >= 0,
    ensures
        0 <= count_used(bits, n) <= n,
    decreases n,
{
    if n > 0 {
        lemma_count_used_bounds(bits, n - 1);
    }
}

pub proof fn lemma_count_used_update(bits: Seq<bool>, n: int, i: int, v: bool)
    requires
        0 <= i < bits.len(),
        0 <= n <= bits.len(),
    ensures
        count_used(bits.update(i, v), n) == count_used(bits, n) + if i < n {
            (if v { 1int } else { 0int }) - (if bits[i] { 1int } else { 0int })
        } else {
            0int
        },
    decreases n,
{
    if n > 0 {
        lemma_count_used_update(bits, n - 1, i, v);
    }
}

pub proof fn lemma_count_full(bits: Seq<bool>, n: int)
    requires
        n >= 0,
        count_used(bits, n) == n,
    ensures
        forall|i: int| 0 <= i < n ==> #[trigger] bits[i],
    decreases n,
{
    if n > 0 {
        lemma_count_used_bounds(bits, n - 1);
        lemma_count_full(bits, n - 1);
    }
}

pub proof fn lemma_count_zero(bits: Seq<bool>, m: int)
    requires
        0 <= m <= bits.len(),
        forall|i: int| 0 <= i < bits.len() ==> !bits[i],
    ensures
        count_used(bits, m) == 0,
    decreases m,
{
    if m > 0 {
        lemma_count_zero(bits, m - 1);
    }
}

} // verus!

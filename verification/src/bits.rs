use crate::build_plan::count_true;
use bitvec::vec::BitVec;
use vstd::prelude::*;

verus! {

/// A bit-vector of `bitvec`, one bit for each step of a plan. Verus does
/// not take a declaration of `BitVec` itself, whose parameters are bound by
/// traits of `bitvec`, so the vector is held in the one private field of
/// this struct, which Verus does not look into.
#[verifier::external_body]
pub struct Bits {
    v: BitVec,
}

/// The bits a bit-vector holds, in order.
pub uninterp spec fn bits_of(v: Bits) -> Seq<bool>;

/// `n` bits, none of them set.
pub open spec fn no_bits(n: nat) -> Seq<bool> {
    Seq::new(n, |i: int| false)
}

/// The bits of `a`, each also set where the bit of `b` at its position is
/// set; `b` counts as unset beyond its end.
pub open spec fn or_of(a: Seq<bool>, b: Seq<bool>) -> Seq<bool> {
    Seq::new(a.len(), |j: int| a[j] || (j < b.len() && b[j]))
}

/// `BitVec::repeat(false, len)`: a bit-vector of `len` bits, none set.
#[verifier::external_body]
pub(crate) fn zeros(len: usize) -> (r: Bits)
    ensures
        bits_of(r) == no_bits(len as nat),
{
    Bits { v: BitVec::repeat(false, len) }
}

/// `BitSlice::set`: writes `value` into the bit at `index`, which must be
/// one of the vector's (the method panics otherwise); the other bits stay.
#[verifier::external_body]
pub(crate) fn set_bit(v: &mut Bits, index: usize, value: bool)
    requires
        index < bits_of(*old(v)).len(),
    ensures
        bits_of(*final(v)) == bits_of(*old(v)).update(index as int, value),
{
    v.v.set(index, value);
}

/// `|=` of bit-slices: sets each bit of `v` whose counterpart in `other`
/// is set; `other` is taken as zero-extended where it is shorter, and the
/// length of `v` stays.
#[verifier::external_body]
pub(crate) fn or_bits(v: &mut Bits, other: &Bits)
    ensures
        bits_of(*final(v)) == or_of(bits_of(*old(v)), bits_of(*other)),
{
    *v.v.as_mut_bitslice() |= other.v.as_bitslice();
}

/// `BitSlice::count_ones`: the number of bits set.
#[verifier::external_body]
pub(crate) fn count_bits(v: &Bits) -> (r: usize)
    ensures
        r == count_true(bits_of(*v)),
{
    v.v.count_ones()
}

} // verus!

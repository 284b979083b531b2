use vstd::prelude::*;

verus! {

#[verifier::external_type_specification]
#[verifier::external_body]
pub struct ExBitVec(vers_vecs::BitVec);

/// The bits held by a plain bit vector, in order.
pub uninterp spec fn bitvec_bits(v: vers_vecs::BitVec) -> Seq<bool>;

/// Relies on vers_vecs::BitVec::new: a fresh vector holds no bits.
#[verifier::external_body]
pub fn bitvec_new() -> (r: vers_vecs::BitVec)
    ensures
        bitvec_bits(r) == Seq::<bool>::empty(),
{
    vers_vecs::BitVec::new()
}

/// Relies on vers_vecs::BitVec::append: appends one bit at the end.
#[verifier::external_body]
pub fn bitvec_append(v: &mut vers_vecs::BitVec, bit: bool)
    requires
        bitvec_bits(*old(v)).len() < usize::MAX,
    ensures
        bitvec_bits(*final(v)) == bitvec_bits(*old(v)).push(bit),
{
    v.append(bit);
}

/// Relies on vers_vecs::BitVec::is_bit_set_unchecked: reads one bit.
#[verifier::external_body]
pub fn bitvec_get(v: &vers_vecs::BitVec, i: usize) -> (r: bool)
    requires
        i < bitvec_bits(*v).len(),
    ensures
        r == bitvec_bits(*v)[i as int],
{
    v.is_bit_set_unchecked(i)
}

/// Relies on vers_vecs::BitVec::heap_size for diagnostics.
#[verifier::external_body]
pub fn bitvec_heap_size(v: &vers_vecs::BitVec) -> usize {
    v.heap_size()
}

} // verus!

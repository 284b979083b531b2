use vstd::prelude::*;
use crate::spec_util::{count_below, strictly_increasing};

verus! {

#[verifier::external_type_specification]
#[verifier::external_body]
pub struct ExSparseRSVec(vers_vecs::SparseRSVec);

/// The positions of the set bits of a sparse bit vector, in ascending
/// order.
pub uninterp spec fn sparse_elems(v: vers_vecs::SparseRSVec) -> Seq<u64>;

/// The length of the bit vector a sparse bit vector stands for.
pub uninterp spec fn sparse_universe(v: vers_vecs::SparseRSVec) -> u64;

/// Relies on vers_vecs::SparseRSVec::new: the vector holds exactly the
/// given set-bit positions over a universe of the given length.
#[verifier::external_body]
pub fn sparse_new(input: &Vec<u64>, len: u64) -> (r: vers_vecs::SparseRSVec)
    requires
        strictly_increasing(input@),
        forall|a: int| 0 <= a < input@.len() ==> input@[a] < len,
    ensures
        sparse_elems(r) == input@,
        sparse_universe(r) == len,
        sparse_elems(r).len() <= usize::MAX,
{
    vers_vecs::SparseRSVec::new(input.as_slice(), len)
}

/// Relies on vers_vecs::SparseRSVec::is_set: in bounds, tells whether the
/// position is one of the stored set bits.
#[verifier::external_body]
pub fn sparse_is_set(v: &vers_vecs::SparseRSVec, i: u64) -> (r: Option<bool>)
    ensures
        i < sparse_universe(*v) ==> r == Some(sparse_elems(*v).contains(i)),
        i >= sparse_universe(*v) ==> r is None,
{
    v.is_set(i)
}

/// Relies on vers_vecs::SparseRSVec::rank1: counts the stored positions
/// strictly below `i`.
#[verifier::external_body]
pub fn sparse_rank1(v: &vers_vecs::SparseRSVec, i: u64) -> (r: u64)
    requires
        forall|a: int| 0 <= a < sparse_elems(*v).len() ==> sparse_elems(*v)[a] < sparse_universe(*v),
    ensures
        r == count_below(sparse_elems(*v), i),
{
    v.rank1(i)
}

/// Relies on vers_vecs::SparseRSVec::select1: returns the stored position
/// of the given rank, or the universe length when the rank is out of
/// range.
#[verifier::external_body]
pub fn sparse_select1(v: &vers_vecs::SparseRSVec, r: usize) -> (s: u64)
    ensures
        r < sparse_elems(*v).len() ==> s == sparse_elems(*v)[r as int],
        r >= sparse_elems(*v).len() ==> s == sparse_universe(*v),
{
    v.select1(r)
}

/// Relies on vers_vecs::SparseRSVec::iter1: yields the stored positions
/// in ascending order.
#[verifier::external_body]
pub fn sparse_positions_vec(v: &vers_vecs::SparseRSVec) -> (r: Vec<u64>)
    ensures
        r@ == sparse_elems(*v),
{
    v.iter1().collect()
}

/// Relies on vers_vecs::SparseRSVec::heap_size for diagnostics.
#[verifier::external_body]
pub fn sparse_heap_size(v: &vers_vecs::SparseRSVec) -> usize {
    v.heap_size()
}

} // verus!

use vstd::prelude::*;
use crate::bits::bitvec_bits;

verus! {

/// Scans forward from `j` for the close that brings the nesting depth
/// below `depth`, where `true` bits open and `false` bits close. Returns
/// the sequence length when no such close exists.
pub open spec fn fc_scan(s: Seq<bool>, j: int, depth: nat) -> int
    decreases s.len() - j,
{
    if j < 0 || j >= s.len() {
        s.len() as int
    } else if s[j] {
        fc_scan(s, j + 1, depth + 1)
    } else if depth <= 1 {
        j
    } else {
        fc_scan(s, j + 1, (depth - 1) as nat)
    }
}

/// The position of the close matching the open at `i`, or the sequence
/// length when the open never closes.
pub open spec fn find_close(s: Seq<bool>, i: int) -> int {
    fc_scan(s, i + 1, 1)
}

/// The scan never moves backwards and never runs past the end.
pub proof fn lemma_fc_scan_range(s: Seq<bool>, j: int, depth: nat)
    requires
        0 <= j <= s.len(),
    ensures
        j <= fc_scan(s, j, depth) <= s.len(),
    decreases s.len() - j,
{
    if j < s.len() {
        if s[j] {
            lemma_fc_scan_range(s, j + 1, depth + 1);
        } else if depth > 1 {
            lemma_fc_scan_range(s, j + 1, (depth - 1) as nat);
        }
    }
}

#[verifier::external_type_specification]
#[verifier::external_body]
pub struct ExBpTree<const BLOCK_SIZE: usize>(vers_vecs::BpTree<BLOCK_SIZE>);

/// The parenthesis bits a balanced-parentheses tree was built from.
pub uninterp spec fn bp_bits(t: vers_vecs::BpTree) -> Seq<bool>;

/// Relies on vers_vecs::BpTree::from_bit_vector: the tree indexes exactly
/// the given bits.
#[verifier::external_body]
pub fn bp_from_bits(v: vers_vecs::BitVec) -> (r: vers_vecs::BpTree)
    ensures
        bp_bits(r) == bitvec_bits(v),
{
    vers_vecs::BpTree::from_bit_vector(v)
}

/// Relies on vers_vecs::BpTree::root: position 0 when any bit exists.
#[verifier::external_body]
pub fn bp_root(t: &vers_vecs::BpTree) -> (r: Option<usize>)
    ensures
        bp_bits(*t).len() == 0 ==> r is None,
        bp_bits(*t).len() > 0 ==> r == Some(0usize),
{
    vers_vecs::trees::Tree::root(t)
}

/// Relies on vers_vecs::BpTree::first_child: the position after an open
/// is its first child exactly when it is itself an open.
#[verifier::external_body]
pub fn bp_first_child(t: &vers_vecs::BpTree, i: usize) -> (r: Option<usize>)
    requires
        i < bp_bits(*t).len(),
        bp_bits(*t)[i as int],
    ensures
        i + 1 < bp_bits(*t).len() && bp_bits(*t)[i + 1] ==> r == Some((i + 1) as usize),
        !(i + 1 < bp_bits(*t).len() && bp_bits(*t)[i + 1]) ==> r is None,
{
    vers_vecs::trees::Tree::first_child(t, i)
}

/// Relies on vers_vecs::BpTree::next_sibling: the position after the
/// matching close of an open is its next sibling exactly when that
/// position is an open.
#[verifier::external_body]
pub fn bp_next_sibling(t: &vers_vecs::BpTree, i: usize) -> (r: Option<usize>)
    requires
        i < bp_bits(*t).len(),
        bp_bits(*t)[i as int],
    ensures
        find_close(bp_bits(*t), i as int) + 1 < bp_bits(*t).len() && bp_bits(*t)[find_close(
            bp_bits(*t),
            i as int,
        ) + 1] ==> r == Some((find_close(bp_bits(*t), i as int) + 1) as usize),
        !(find_close(bp_bits(*t), i as int) + 1 < bp_bits(*t).len() && bp_bits(*t)[find_close(
            bp_bits(*t),
            i as int,
        ) + 1]) ==> r is None,
{
    vers_vecs::trees::Tree::next_sibling(t, i)
}

/// Relies on vers_vecs::BpTree::heap_size for diagnostics.
#[verifier::external_body]
pub fn bp_heap_size(t: &vers_vecs::BpTree) -> usize {
    t.heap_size()
}

} // verus!

use vstd::prelude::*;
use crate::kinds::{NodeInfoId, BOOLEAN_OPEN_ID, FIXED_KIND_COUNT, NUMBER_OPEN_ID, STRING_OPEN_ID};
use crate::sparse::{
    sparse_elems, sparse_heap_size, sparse_is_set, sparse_new, sparse_rank1, sparse_select1,
    sparse_universe,
};
use crate::spec_util::{count_below, lemma_count_below_at_index, strictly_increasing};

verus! {

/// Per-kind sparse bit vectors over the node positions of a document.
/// The vector for kind `k` has a set bit at position `i` exactly when
/// position `i` is of kind `k`.
pub struct NodeInfoVec {
    pub vecs: Vec<vers_vecs::SparseRSVec>,
    pub len: usize,
}

impl NodeInfoVec {
    /// The positions of kind `k`, in ascending order.
    pub open spec fn elems(&self, k: int) -> Seq<u64> {
        sparse_elems(self.vecs@[k])
    }

    /// Number of registered kinds.
    pub open spec fn kind_count(&self) -> nat {
        self.vecs@.len()
    }

    /// Length of the position universe (the parenthesis sequence).
    pub open spec fn spec_len(&self) -> nat {
        self.len as nat
    }

    pub open spec fn wf(&self) -> bool {
        &&& forall|k: int|
            0 <= k < self.vecs@.len() ==> sparse_universe(#[trigger] self.vecs@[k])
                == self.len as u64
        &&& forall|k: int| 0 <= k < self.vecs@.len() ==> strictly_increasing(#[trigger] self.elems(k))
        &&& forall|k: int, a: int|
            0 <= k < self.vecs@.len() && 0 <= a < self.elems(k).len() ==> #[trigger] self.elems(k)[a]
                < self.len as u64
        &&& forall|k: int| 0 <= k < self.vecs@.len() ==> #[trigger] self.elems(k).len() <= usize::MAX
    }

    /// The first kind at or after `k` whose positions contain `i`.
    pub open spec fn first_kind_from(&self, i: u64, k: int) -> Option<u64>
        decreases self.kind_count() - k,
    {
        if k < 0 || k >= self.kind_count() {
            None
        } else if self.elems(k).contains(i) {
            Some(k as u64)
        } else {
            self.first_kind_from(i, k + 1)
        }
    }

    /// Builds the index from the per-kind position lists over a universe
    /// of `amount` positions.
    pub fn new(usage: Vec<Vec<u64>>, amount: usize) -> (r: NodeInfoVec)
        requires
            forall|k: int| 0 <= k < usage@.len() ==> strictly_increasing(#[trigger] usage@[k]@),
            forall|k: int, a: int|
                0 <= k < usage@.len() && 0 <= a < usage@[k]@.len() ==> #[trigger] usage@[k]@[a]
                    < amount as u64,
        ensures
            r.wf(),
            r.kind_count() == usage@.len(),
            r.spec_len() == amount,
            forall|k: int| 0 <= k < usage@.len() ==> #[trigger] r.elems(k) == usage@[k]@,
    {
        let mut vecs: Vec<vers_vecs::SparseRSVec> = Vec::new();
        let mut j: usize = 0;
        while j < usage.len()
            invariant
                j <= usage@.len(),
                vecs@.len() == j,
                forall|k: int| 0 <= k < usage@.len() ==> strictly_increasing(#[trigger] usage@[k]@),
                forall|k: int, a: int|
                    0 <= k < usage@.len() && 0 <= a < usage@[k]@.len() ==> #[trigger] usage@[k]@[a]
                        < amount as u64,
                forall|k: int|
                    0 <= k < j ==> sparse_universe(#[trigger] vecs@[k]) == amount as u64,
                forall|k: int| 0 <= k < j ==> sparse_elems(#[trigger] vecs@[k]) == usage@[k]@,
                forall|k: int|
                    0 <= k < j ==> #[trigger] sparse_elems(vecs@[k]).len() <= usize::MAX,
            decreases usage@.len() - j,
        {
            let v = sparse_new(&usage[j], amount as u64);
            vecs.push(v);
            j += 1;
        }
        NodeInfoVec { vecs, len: amount }
    }

    /// The unique kind of position `i`: the first kind whose positions
    /// contain `i`.
    pub fn node_info_id(&self, i: usize) -> (r: Option<NodeInfoId>)
        requires
            self.wf(),
        ensures
            r matches Some(id) ==> self.first_kind_from(i as u64, 0) == Some(id.0),
            r is None ==> self.first_kind_from(i as u64, 0) is None,
    {
        let mut k: usize = 0;
        while k < self.vecs.len()
            invariant
                self.wf(),
                k <= self.vecs@.len(),
                self.first_kind_from(i as u64, 0) == self.first_kind_from(i as u64, k as int),
            decreases self.vecs@.len() - k,
        {
            match sparse_is_set(&self.vecs[k], i as u64) {
                Some(true) => {
                    return Some(NodeInfoId(k as u64));
                },
                _ => {},
            }
            k += 1;
        }
        None
    }

    /// How many positions of kind `id` lie strictly before position `i`.
    /// `None` when `i` lies past the end of the universe.
    pub fn rank_node_info_id(&self, i: usize, id: NodeInfoId) -> (r: Option<usize>)
        requires
            self.wf(),
            id.0 < self.kind_count(),
        ensures
            i <= self.spec_len() ==> r == Some(count_below(self.elems(id.0 as int), i as u64) as usize),
            i > self.spec_len() ==> r is None,
    {
        proof {
            vstd::std_specs::vec::axiom_spec_len(&self.vecs);
            assert(id.0 as usize as int == id.0 as int);
        }
        proof {
            assert(sparse_universe(self.vecs@[id.0 as int]) == self.len as u64);
            assert(forall|a: int|
                0 <= a < self.elems(id.0 as int).len() ==> #[trigger] self.elems(id.0 as int)[a]
                    < self.len as u64);
        }
        if i <= self.len {
            let c = sparse_rank1(&self.vecs[id.0 as usize], i as u64);
            proof {
                crate::spec_util::lemma_count_below_le_len(self.elems(id.0 as int), i as u64);
            }
            Some(c as usize)
        } else {
            None
        }
    }

    /// The position of the `rank`-th occurrence of kind `id`, if that
    /// many occurrences exist.
    pub fn select_node_info_id(&self, rank: usize, id: NodeInfoId) -> (r: Option<usize>)
        requires
            self.wf(),
            id.0 < self.kind_count(),
        ensures
            rank < self.elems(id.0 as int).len() ==> r == Some(
                self.elems(id.0 as int)[rank as int] as usize,
            ),
            rank >= self.elems(id.0 as int).len() ==> r is None,
    {
        proof {
            vstd::std_specs::vec::axiom_spec_len(&self.vecs);
            assert(id.0 as usize as int == id.0 as int);
        }
        let s = sparse_select1(&self.vecs[id.0 as usize], rank);
        if s != self.len as u64 {
            Some(s as usize)
        } else {
            None
        }
    }

    /// Dense index of the string at position `i` into the text store.
    pub fn text_id(&self, i: usize) -> (r: Option<usize>)
        requires
            self.wf(),
            self.kind_count() >= FIXED_KIND_COUNT,
        ensures
            i <= self.spec_len() ==> r == Some(
                count_below(self.elems(STRING_OPEN_ID as int), i as u64) as usize,
            ),
            i > self.spec_len() ==> r is None,
    {
        self.rank_node_info_id(i, NodeInfoId(STRING_OPEN_ID))
    }

    /// Dense index of the number at position `i` into the number array.
    pub fn number_id(&self, i: usize) -> (r: Option<usize>)
        requires
            self.wf(),
            self.kind_count() >= FIXED_KIND_COUNT,
        ensures
            i <= self.spec_len() ==> r == Some(
                count_below(self.elems(NUMBER_OPEN_ID as int), i as u64) as usize,
            ),
            i > self.spec_len() ==> r is None,
    {
        self.rank_node_info_id(i, NodeInfoId(NUMBER_OPEN_ID))
    }

    /// Dense index of the boolean at position `i` into the boolean store.
    pub fn boolean_id(&self, i: usize) -> (r: Option<usize>)
        requires
            self.wf(),
            self.kind_count() >= FIXED_KIND_COUNT,
        ensures
            i <= self.spec_len() ==> r == Some(
                count_below(self.elems(BOOLEAN_OPEN_ID as int), i as u64) as usize,
            ),
            i > self.spec_len() ==> r is None,
    {
        self.rank_node_info_id(i, NodeInfoId(BOOLEAN_OPEN_ID))
    }

    /// Approximate heap footprint of the index, for diagnostics.
    pub fn heap_size(&self) -> usize {
        let mut total: usize = 0;
        let mut k: usize = 0;
        while k < self.vecs.len()
            decreases self.vecs@.len() - k,
        {
            total = total.saturating_add(sparse_heap_size(&self.vecs[k]));
            k += 1;
        }
        total
    }
}

/// Rank and select are inverse: selecting the `r`-th occurrence of a kind
/// and asking how many occurrences lie before it gives back `r`; and the
/// position counted to by a rank `c > 0` lies strictly before any bound
/// that yields that rank.
pub proof fn lemma_rank_select_inverse(v: &NodeInfoVec, k: int, r: int)
    requires
        v.wf(),
        0 <= k < v.kind_count(),
        0 <= r < v.elems(k).len(),
    ensures
        count_below(v.elems(k), v.elems(k)[r]) == r,
{
    lemma_count_below_at_index(v.elems(k), r);
}

/// The other direction of the inverse law: if `i` is a position of kind
/// `k`, then the rank of `i`, diminished by one for `i` itself, selects a
/// position no greater than `i`.
pub proof fn lemma_select_rank_bound(v: &NodeInfoVec, k: int, i: u64)
    requires
        v.wf(),
        0 <= k < v.kind_count(),
        v.elems(k).contains(i),
    ensures
        count_below(v.elems(k), i) < v.elems(k).len(),
        v.elems(k)[count_below(v.elems(k), i) as int] == i,
{
    let s = v.elems(k);
    let j = choose|j: int| 0 <= j < s.len() && s[j] == i;
    lemma_count_below_at_index(s, j);
}

} // verus!

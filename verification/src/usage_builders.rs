use vstd::prelude::*;
use crate::kinds::{InfoV, NodeInfo, NodeInfoId};
use crate::registry::NodeLookup;
use crate::spec_util::{
    lemma_positions_of_contains, lemma_positions_of_push, lemma_positions_of_sorted, positions_of,
};
use crate::usage_index::NodeInfoVec;

verus! {

/// The same positions, read as wide integers.
pub open spec fn widen(s: Seq<u32>) -> Seq<u64> {
    Seq::new(s.len(), |i: int| s[i] as u64)
}

/// The sequence is strictly increasing.
pub open spec fn inc32(s: Seq<u32>) -> bool {
    forall|a: int, b: int| 0 <= a < b < s.len() ==> s[a] < s[b]
}

/// A kind that never occurs has no positions.
proof fn lemma_positions_of_absent(kinds: Seq<u64>, k: u64)
    requires
        kinds.len() <= u64::MAX,
        forall|i: int| 0 <= i < kinds.len() ==> kinds[i] != k,
    ensures
        positions_of(kinds, k) =~= Seq::<u64>::empty(),
{
    let p = positions_of(kinds, k);
    if p.len() > 0 {
        lemma_positions_of_contains(kinds, k, p[0]);
        assert(p.contains(p[0]));
    }
}

#[verifier::external_type_specification]
#[verifier::external_body]
pub struct ExRoaringBitmap(roaring::RoaringBitmap);

/// The members of a roaring bitmap, in ascending order.
pub uninterp spec fn roaring_elems(b: roaring::RoaringBitmap) -> Seq<u32>;

/// Relies on roaring::RoaringBitmap::new: a fresh bitmap is empty.
#[verifier::external_body]
fn roaring_new() -> (r: roaring::RoaringBitmap)
    ensures
        roaring_elems(r) == Seq::<u32>::empty(),
{
    roaring::RoaringBitmap::new()
}

/// Relies on roaring::RoaringBitmap::push: appends a value above the
/// current maximum.
#[verifier::external_body]
fn roaring_push(b: &mut roaring::RoaringBitmap, v: u32) -> (r: bool)
    requires
        roaring_elems(*old(b)).len() == 0 || roaring_elems(*old(b)).last() < v,
        inc32(roaring_elems(*old(b))),
    ensures
        r == true,
        roaring_elems(*final(b)) == roaring_elems(*old(b)).push(v),
{
    b.push(v)
}

/// Relies on roaring::RoaringBitmap::iter: yields the members in
/// ascending order.
#[verifier::external_body]
fn roaring_to_vec(b: &roaring::RoaringBitmap) -> (r: Vec<u32>)
    ensures
        r@ == roaring_elems(*b),
{
    b.iter().collect()
}

/// Relies on roaring::RoaringBitmap::serialized_size for diagnostics.
#[verifier::external_body]
fn roaring_size(b: &roaring::RoaringBitmap) -> usize {
    b.serialized_size()
}

/// Gathers per-kind node positions during parse in roaring bitmaps.
pub struct RoaringUsageBuilder {
    pub usage: Vec<roaring::RoaringBitmap>,
    pub node_lookup: NodeLookup,
    pub len: usize,
    pub kinds: Ghost<Seq<u64>>,
}

impl RoaringUsageBuilder {
    pub open spec fn wf(&self) -> bool {
        &&& self.node_lookup.wf()
        &&& self.len == self.kinds@.len()
        &&& self.kinds@.len() < u32::MAX
        &&& self.usage@.len() <= self.node_lookup.infos().len()
        &&& forall|i: int|
            0 <= i < self.kinds@.len() ==> (#[trigger] self.kinds@[i] as int) < self.usage@.len()
        &&& forall|k: int|
            0 <= k < self.usage@.len() ==> widen(roaring_elems(#[trigger] self.usage@[k]))
                == positions_of(self.kinds@, k as u64)
    }

    pub fn new() -> (r: RoaringUsageBuilder)
        ensures
            r.wf(),
            r.kinds@ == Seq::<u64>::empty(),
            r.node_lookup.infos().len() == crate::kinds::FIXED_KIND_COUNT,
    {
        RoaringUsageBuilder {
            usage: Vec::new(),
            node_lookup: NodeLookup::new(),
            len: 0,
            kinds: Ghost(Seq::empty()),
        }
    }

    /// Records that the next node position is of the given kind.
    pub fn append(&mut self, node_info_id: NodeInfoId)
        requires
            old(self).wf(),
            node_info_id.0 < old(self).node_lookup.infos().len(),
            old(self).kinds@.len() + 1 < u32::MAX,
        ensures
            final(self).wf(),
            final(self).kinds@ == old(self).kinds@.push(node_info_id.0),
            final(self).node_lookup == old(self).node_lookup,
            final(self).len == old(self).len + 1,
    {
        proof {
            vstd::std_specs::vec::axiom_spec_len(&self.usage);
        }
        let i = node_info_id.0 as usize;
        while self.usage.len() <= i
            invariant
                self.node_lookup == old(self).node_lookup,
                self.len == old(self).len,
                self.kinds == old(self).kinds,
                old(self).usage@.len() <= self.usage@.len(),
                self.usage@.len() <= self.node_lookup.infos().len(),
                i < self.node_lookup.infos().len(),
                old(self).wf(),
                forall|i2: int|
                    0 <= i2 < self.kinds@.len() ==> (#[trigger] self.kinds@[i2] as int)
                        < self.usage@.len(),
                forall|k: int|
                    0 <= k < self.usage@.len() ==> widen(roaring_elems(#[trigger] self.usage@[k]))
                        == positions_of(self.kinds@, k as u64),
            decreases i + 1 - self.usage@.len(),
        {
            let bm = roaring_new();
            proof {
                let k = self.usage@.len() as int;
                lemma_positions_of_absent(self.kinds@, k as u64);
                assert(widen(roaring_elems(bm)) =~= positions_of(self.kinds@, k as u64));
            }
            self.usage.push(bm);
        }
        let ghost usage_mid = self.usage@;
        let ghost kinds0 = self.kinds@;
        let pos = self.len as u32;
        proof {
            lemma_positions_of_sorted(kinds0, node_info_id.0);
            let p = positions_of(kinds0, node_info_id.0);
            let e = roaring_elems(self.usage@[i as int]);
            assert(widen(e) == p);
            if e.len() > 0 {
                assert(e.last() as u64 == p.last());
                assert(p.last() < kinds0.len());
            }
            assert(inc32(e)) by {
                assert forall|a: int, b: int| 0 <= a < b < e.len() implies e[a] < e[b] by {
                    assert(widen(e)[a] == e[a] as u64);
                    assert(widen(e)[b] == e[b] as u64);
                }
            }
        }
        let bm = vstd::std_specs::vec::vec_index_mut(&mut self.usage, i);
        roaring_push(bm, pos);
        self.len += 1;
        proof {
            self.kinds@ = kinds0.push(node_info_id.0);
            assert forall|k: int| 0 <= k < self.usage@.len() implies widen(
                roaring_elems(#[trigger] self.usage@[k]),
            ) == positions_of(self.kinds@, k as u64) by {
                lemma_positions_of_push(kinds0, node_info_id.0, k as u64);
                if k == i as int {
                    assert(widen(roaring_elems(self.usage@[k])) =~= widen(
                        roaring_elems(usage_mid[k]),
                    ).push(pos as u64));
                } else {
                    assert(self.usage@[k] == usage_mid[k]);
                }
            }
        }
    }

    /// Approximate heap footprint of the gathered positions, for
    /// diagnostics.
    pub fn usage_heap_size(&self) -> usize {
        let mut total: usize = 0;
        let mut k: usize = 0;
        while k < self.usage.len()
            decreases self.usage@.len() - k,
        {
            total = total.saturating_add(roaring_size(&self.usage[k]));
            k += 1;
        }
        total
    }

    /// Converts the gathered positions into the frozen per-kind index.
    pub fn build(self) -> (r: (NodeInfoVec, NodeLookup))
        requires
            self.wf(),
        ensures
            r.0.wf(),
            r.1 == self.node_lookup,
            r.0.kind_count() == self.node_lookup.infos().len(),
            r.0.spec_len() == self.kinds@.len(),
            forall|k: int|
                0 <= k < r.0.kind_count() ==> r.0.elems(k) == positions_of(
                    self.kinds@,
                    k as u64,
                ),
    {
        let n_kinds = self.node_lookup.len();
        let mut vecs: Vec<Vec<u64>> = Vec::new();
        let mut k: usize = 0;
        while k < n_kinds
            invariant
                self.wf(),
                k <= n_kinds,
                n_kinds == self.node_lookup.infos().len(),
                vecs@.len() == k,
                forall|j: int|
                    0 <= j < k ==> (#[trigger] vecs@[j])@ == positions_of(self.kinds@, j as u64),
            decreases n_kinds - k,
        {
            let mut pos64: Vec<u64> = Vec::new();
            if k < self.usage.len() {
                let pos32 = roaring_to_vec(&self.usage[k]);
                let mut j: usize = 0;
                while j < pos32.len()
                    invariant
                        j <= pos32@.len(),
                        pos64@ =~= widen(pos32@).take(j as int),
                    decreases pos32@.len() - j,
                {
                    pos64.push(pos32[j]
                        as u64);
                    proof {
                        assert(pos64@ =~= widen(pos32@).take(j as int + 1));
                    }
                    j += 1;
                }
                proof {
                    assert(pos64@ =~= widen(pos32@));
                }
            } else {
                proof {
                    lemma_positions_of_absent(self.kinds@, k as u64);
                }
            }
            vecs.push(pos64);
            k += 1;
        }
        proof {
            assert forall|j: int| 0 <= j < vecs@.len() implies crate::spec_util::strictly_increasing(
                #[trigger] vecs@[j]@,
            ) by {
                lemma_positions_of_sorted(self.kinds@, j as u64);
            }
            assert forall|j: int, a: int|
                0 <= j < vecs@.len() && 0 <= a < vecs@[j]@.len() implies #[trigger] vecs@[j]@[a]
                < self.len as u64 by {
                lemma_positions_of_sorted(self.kinds@, j as u64);
            }
        }
        let index = NodeInfoVec::new(vecs, self.len);
        (index, self.node_lookup)
    }
}

/// Names for the bit-packed encoding of one 128-value block of strictly
/// increasing positions: its bytes, its bit width, and what decoding
/// gives back.
pub uninterp spec fn packed_of(initial: Option<u32>, vals: Seq<u32>) -> Seq<u8>;

pub uninterp spec fn packed_bits_of(initial: Option<u32>, vals: Seq<u32>) -> u8;

pub uninterp spec fn unpacked_of(initial: Option<u32>, data: Seq<u8>, num_bits: u8) -> Seq<u32>;

/// Relies on bitpacking's BitPacker4x::num_bits_strictly_sorted and
/// compress_strictly_sorted: a full block of strictly increasing values
/// is delta-encoded into `num_bits` bits per value, and decoding the
/// bytes gives the block back.
#[verifier::external_body]
pub fn pack_sorted_block(initial: &Option<u32>, vals: &[u32]) -> (r: (Vec<u8>, u8))
    requires
        vals@.len() == 128,
        inc32(vals@),
        initial matches Some(x) ==> x < vals@[0],
    ensures
        r.0@ == packed_of(*initial, vals@),
        r.1 == packed_bits_of(*initial, vals@),
        r.0@.len() * 8 == 128 * (r.1 as int),
        unpacked_of(*initial, r.0@, r.1) == vals@,
{
    let packer = <bitpacking::BitPacker4x as bitpacking::BitPacker>::new();
    let num_bits = bitpacking::BitPacker::num_bits_strictly_sorted(&packer, *initial, vals);
    let mut out = vec![0u8; 4 * <bitpacking::BitPacker4x as bitpacking::BitPacker>::BLOCK_LEN];
    let written = bitpacking::BitPacker::compress_strictly_sorted(
        &packer,
        *initial,
        vals,
        &mut out,
        num_bits,
    );
    out.truncate(written);
    (out, num_bits)
}

/// Relies on bitpacking's BitPacker4x::decompress_strictly_sorted:
/// decodes one full block.
#[verifier::external_body]
pub fn unpack_sorted_block(initial: &Option<u32>, packed: &[u8], num_bits: u8) -> (r: Vec<u32>)
    requires
        packed@.len() * 8 >= 128 * (num_bits as int),
    ensures
        r@ == unpacked_of(*initial, packed@, num_bits),
        r@.len() == 128,
{
    let packer = <bitpacking::BitPacker4x as bitpacking::BitPacker>::new();
    let mut out = vec![0u32; <bitpacking::BitPacker4x as bitpacking::BitPacker>::BLOCK_LEN];
    bitpacking::BitPacker::decompress_strictly_sorted(&packer, *initial, packed, &mut out, num_bits);
    out
}

/// The values of one full block.
pub open spec fn chunk(vals: Seq<u32>, b: int) -> Seq<u32> {
    vals.subrange(128 * b, 128 * b + 128)
}

/// The delta base of a block: the last value before it.
pub open spec fn block_initial(vals: Seq<u32>, b: int) -> Option<u32> {
    if b == 0 {
        None
    } else {
        Some(vals[128 * b - 1])
    }
}

/// Placement and encoding of one sealed block.
#[derive(Clone)]
pub struct BlockInfo {
    pub initial_value: Option<u32>,
    pub num_bits: u8,
    pub compressed_start: usize,
    pub compressed_len: usize,
}

/// A strictly increasing position sequence, held as bit-packed full
/// blocks plus a tail of values not yet filling a block.
pub struct Packed {
    pub compressed: Vec<u8>,
    pub remainder: Vec<u32>,
    pub block_infos: Vec<BlockInfo>,
    pub used: usize,
    pub initial_value: Option<u32>,
    pub vals: Ghost<Seq<u32>>,
}

impl Packed {
    pub open spec fn nb(&self) -> int {
        self.block_infos@.len() as int
    }

    pub open spec fn block_ok(&self, b: int) -> bool {
        let info = self.block_infos@[b];
        let init = block_initial(self.vals@, b);
        let seg = self.compressed@.subrange(
            info.compressed_start as int,
            info.compressed_start + info.compressed_len,
        );
        &&& info.initial_value == init
        &&& info.compressed_start + info.compressed_len <= self.compressed@.len()
        &&& info.compressed_start + info.compressed_len == if b + 1 < self.nb() {
            self.block_infos@[b + 1].compressed_start as int
        } else {
            self.used as int
        }
        &&& (b == 0 ==> info.compressed_start == 0)
        &&& seg == packed_of(init, chunk(self.vals@, b))
        &&& info.num_bits == packed_bits_of(init, chunk(self.vals@, b))
        &&& unpacked_of(init, seg, info.num_bits) == chunk(self.vals@, b)
        &&& (info.compressed_len as int) * 8 == 128 * (info.num_bits as int)
    }

    pub open spec fn wf(&self) -> bool {
        &&& inc32(self.vals@)
        &&& self.vals@.len() == 128 * self.nb() + self.remainder@.len()
        &&& self.remainder@.len() < 128
        &&& self.remainder@ == self.vals@.skip(128 * self.nb())
        &&& self.initial_value == block_initial(self.vals@, self.nb())
        &&& self.used == self.compressed@.len()
        &&& (self.nb() == 0 ==> self.used == 0)
        &&& forall|b: int| 0 <= b < self.nb() ==> self.block_ok(b)
    }

    pub fn new() -> (r: Packed)
        ensures
            r.wf(),
            r.vals@ == Seq::<u32>::empty(),
    {
        let r = Packed {
            compressed: Vec::new(),
            remainder: Vec::new(),
            block_infos: Vec::new(),
            used: 0,
            initial_value: None,
            vals: Ghost(Seq::empty()),
        };
        proof {
            assert(r.remainder@ =~= r.vals@.skip(128 * r.nb()));
        }
        r
    }

    /// Approximate heap footprint, for diagnostics.
    pub fn heap_size(&self) -> usize {
        self.compressed.len().saturating_add(self.remainder.len().saturating_add(
            self.block_infos.len(),
        ))
    }

    /// Appends one position above all held so far; a filled tail is
    /// sealed into a bit-packed block.
    pub fn append(&mut self, value: u32)
        requires
            old(self).wf(),
            old(self).vals@.len() == 0 || old(self).vals@.last() < value,
        ensures
            final(self).wf(),
            final(self).vals@ == old(self).vals@.push(value),
    {
        let ghost vals0 = self.vals@;
        proof {
            self.vals@ = vals0.push(value);
        }
        self.remainder.push(value);
        proof {
            assert(self.remainder@ =~= self.vals@.skip(128 * self.nb()));
            assert(inc32(self.vals@)) by {
                assert forall|a: int, b: int| 0 <= a < b < self.vals@.len() implies self.vals@[a]
                    < self.vals@[b] by {
                    if b < self.vals@.len() - 1 {
                    } else if a < vals0.len() {
                        if a < vals0.len() - 1 {
                            assert(vals0[a] < vals0.last());
                        }
                    }
                }
            }
        }
        if self.remainder.len() < 128 {
            proof {
                assert forall|b: int| 0 <= b < self.nb() implies self.block_ok(b) by {
                    assert(old(self).block_ok(b));
                    assert(chunk(self.vals@, b) =~= chunk(vals0, b));
                    assert(block_initial(self.vals@, b) == block_initial(vals0, b));
                }
            }
            return ;
        }
        let ghost nb0 = self.nb();
        proof {
            assert(self.remainder@.len() == 128);
            assert(inc32(self.remainder@)) by {
                assert forall|a: int, b: int|
                    0 <= a < b < self.remainder@.len() implies self.remainder@[a]
                    < self.remainder@[b] by {
                    assert(self.remainder@[a] == self.vals@[128 * nb0 + a]);
                    assert(self.remainder@[b] == self.vals@[128 * nb0 + b]);
                }
            }
            if nb0 > 0 {
                assert(self.initial_value == Some(self.vals@[128 * nb0 - 1]));
                assert(self.vals@[128 * nb0 - 1] < self.vals@[128 * nb0]);
                assert(self.remainder@[0] == self.vals@[128 * nb0]);
            }
        }
        let (block_bytes, num_bits) = pack_sorted_block(
            &self.initial_value,
            self.remainder.as_slice(),
        );
        let compressed_start = self.used;
        let compressed_len = block_bytes.len();
        let ghost compressed0 = self.compressed@;
        self.compressed.extend_from_slice(block_bytes.as_slice());
        self.used = self.compressed.len();
        self.block_infos.push(
            BlockInfo {
                initial_value: self.initial_value,
                num_bits,
                compressed_start,
                compressed_len,
            },
        );
        self.initial_value = Some(self.remainder[128 - 1]);
        self.remainder = Vec::new();
        proof {
            assert(self.vals@.len() == 128 * self.nb());
            assert(self.remainder@ =~= self.vals@.skip(128 * self.nb()));
            assert(chunk(self.vals@, nb0) =~= vals0.push(value).skip(128 * nb0));
            assert(self.initial_value == block_initial(self.vals@, self.nb())) by {
                assert(self.vals@[128 * self.nb() - 1] == self.vals@.last());
            }
            assert forall|b: int| 0 <= b < self.nb() implies self.block_ok(b) by {
                if b < nb0 {
                    assert(old(self).block_ok(b));
                    assert(chunk(self.vals@, b) =~= chunk(vals0, b));
                    assert(block_initial(self.vals@, b) == block_initial(vals0, b)) by {
                        if b > 0 {
                            assert(self.vals@[128 * b - 1] == vals0[128 * b - 1]);
                        }
                    }
                    let info = self.block_infos@[b];
                    assert(info == old(self).block_infos@[b]);
                    assert(self.compressed@.subrange(
                        info.compressed_start as int,
                        info.compressed_start + info.compressed_len,
                    ) =~= compressed0.subrange(
                        info.compressed_start as int,
                        info.compressed_start + info.compressed_len,
                    ));
                } else {
                    let info = self.block_infos@[b];
                    let init = block_initial(self.vals@, b);
                    assert(info.compressed_start == compressed0.len());
                    assert(self.compressed@.len() == compressed0.len() + block_bytes@.len());
                    assert(self.compressed@.subrange(
                        info.compressed_start as int,
                        info.compressed_start + info.compressed_len,
                    ) =~= block_bytes@);
                    assert(init == old(self).initial_value) by {
                        if b > 0 {
                            assert(self.vals@[128 * b - 1] == vals0[128 * b - 1]);
                        }
                    }
                    assert(chunk(self.vals@, b) =~= self.vals@.skip(128 * nb0));
                    assert(block_bytes@ == packed_of(init, chunk(self.vals@, b)));
                }
            }
        }
    }

    /// Restores the full position sequence: every sealed block decoded
    /// in order, then the tail.
    pub fn decompressed(&self) -> (r: Vec<u32>)
        requires
            self.wf(),
        ensures
            r@ == self.vals@,
    {
        let mut out: Vec<u32> = Vec::new();
        let mut b: usize = 0;
        while b < self.block_infos.len()
            invariant
                self.wf(),
                b <= self.nb(),
                out@ =~= self.vals@.take(128 * b),
            decreases self.nb() - b,
        {
            proof {
                assert(self.block_ok(b as int));
            }
            let info = &self.block_infos[b];
            let seg = vstd::slice::slice_subrange(
                self.compressed.as_slice(),
                info.compressed_start,
                info.compressed_start + info.compressed_len,
            );
            let mut block = unpack_sorted_block(&info.initial_value, seg, info.num_bits);
            proof {
                assert(block@ == chunk(self.vals@, b as int));
            }
            out.append(&mut block);
            proof {
                assert(out@ =~= self.vals@.take(128 * (b + 1)));
            }
            b += 1;
        }
        out.extend_from_slice(self.remainder.as_slice());
        proof {
            assert(out@ =~= self.vals@);
        }
        out
    }
}

/// Gathers per-kind node positions during parse in bit-packed delta
/// blocks, trading insert time for a lower peak footprint.
pub struct BitpackingUsageBuilder {
    pub usage: Vec<Packed>,
    pub node_lookup: NodeLookup,
    pub len: usize,
    pub kinds: Ghost<Seq<u64>>,
}

impl BitpackingUsageBuilder {
    pub open spec fn wf(&self) -> bool {
        &&& self.node_lookup.wf()
        &&& self.len == self.kinds@.len()
        &&& self.kinds@.len() < u32::MAX
        &&& self.usage@.len() <= self.node_lookup.infos().len()
        &&& forall|i: int|
            0 <= i < self.kinds@.len() ==> (#[trigger] self.kinds@[i] as int) < self.usage@.len()
        &&& forall|k: int| 0 <= k < self.usage@.len() ==> (#[trigger] self.usage@[k]).wf()
        &&& forall|k: int|
            0 <= k < self.usage@.len() ==> widen((#[trigger] self.usage@[k]).vals@)
                == positions_of(self.kinds@, k as u64)
    }

    pub fn new() -> (r: BitpackingUsageBuilder)
        ensures
            r.wf(),
            r.kinds@ == Seq::<u64>::empty(),
            r.node_lookup.infos().len() == crate::kinds::FIXED_KIND_COUNT,
    {
        BitpackingUsageBuilder {
            usage: Vec::new(),
            node_lookup: NodeLookup::new(),
            len: 0,
            kinds: Ghost(Seq::empty()),
        }
    }

    /// Records that the next node position is of the given kind.
    pub fn append(&mut self, node_info_id: NodeInfoId)
        requires
            old(self).wf(),
            node_info_id.0 < old(self).node_lookup.infos().len(),
            old(self).kinds@.len() + 1 < u32::MAX,
        ensures
            final(self).wf(),
            final(self).kinds@ == old(self).kinds@.push(node_info_id.0),
            final(self).node_lookup == old(self).node_lookup,
            final(self).len == old(self).len + 1,
    {
        proof {
            vstd::std_specs::vec::axiom_spec_len(&self.usage);
        }
        let i = node_info_id.0 as usize;
        while self.usage.len() <= i
            invariant
                self.node_lookup == old(self).node_lookup,
                self.len == old(self).len,
                self.kinds == old(self).kinds,
                old(self).usage@.len() <= self.usage@.len(),
                self.usage@.len() <= self.node_lookup.infos().len(),
                i < self.node_lookup.infos().len(),
                old(self).wf(),
                forall|i2: int|
                    0 <= i2 < self.kinds@.len() ==> (#[trigger] self.kinds@[i2] as int)
                        < self.usage@.len(),
                forall|k: int| 0 <= k < self.usage@.len() ==> (#[trigger] self.usage@[k]).wf(),
                forall|k: int|
                    0 <= k < self.usage@.len() ==> widen((#[trigger] self.usage@[k]).vals@)
                        == positions_of(self.kinds@, k as u64),
            decreases i + 1 - self.usage@.len(),
        {
            let p = Packed::new();
            proof {
                let k = self.usage@.len() as int;
                lemma_positions_of_absent(self.kinds@, k as u64);
                assert(widen(p.vals@) =~= positions_of(self.kinds@, k as u64));
            }
            self.usage.push(p);
        }
        let ghost usage_mid = self.usage@;
        let ghost kinds0 = self.kinds@;
        let pos = self.len as u32;
        proof {
            lemma_positions_of_sorted(kinds0, node_info_id.0);
            let p = positions_of(kinds0, node_info_id.0);
            let e = self.usage@[i as int].vals@;
            assert(widen(e) == p);
            if e.len() > 0 {
                assert(e.last() as u64 == p.last());
                assert(p.last() < kinds0.len());
            }
        }
        let pk = vstd::std_specs::vec::vec_index_mut(&mut self.usage, i);
        pk.append(pos);
        self.len += 1;
        proof {
            self.kinds@ = kinds0.push(node_info_id.0);
            assert forall|k: int| 0 <= k < self.usage@.len() implies widen(
                (#[trigger] self.usage@[k]).vals@,
            ) == positions_of(self.kinds@, k as u64) by {
                lemma_positions_of_push(kinds0, node_info_id.0, k as u64);
                if k == i as int {
                    assert(widen(self.usage@[k].vals@) =~= widen(usage_mid[k].vals@).push(
                        pos as u64,
                    ));
                } else {
                    assert(self.usage@[k] == usage_mid[k]);
                }
            }
        }
    }

    /// Approximate heap footprint of the gathered positions, for
    /// diagnostics.
    pub fn usage_heap_size(&self) -> usize {
        let mut total: usize = 0;
        let mut k: usize = 0;
        while k < self.usage.len()
            decreases self.usage@.len() - k,
        {
            total = total.saturating_add(self.usage[k].heap_size());
            k += 1;
        }
        total
    }

    /// Converts the gathered positions into the frozen per-kind index.
    pub fn build(self) -> (r: (NodeInfoVec, NodeLookup))
        requires
            self.wf(),
        ensures
            r.0.wf(),
            r.1 == self.node_lookup,
            r.0.kind_count() == self.node_lookup.infos().len(),
            r.0.spec_len() == self.kinds@.len(),
            forall|k: int|
                0 <= k < r.0.kind_count() ==> r.0.elems(k) == positions_of(
                    self.kinds@,
                    k as u64,
                ),
    {
        let n_kinds = self.node_lookup.len();
        let mut vecs: Vec<Vec<u64>> = Vec::new();
        let mut k: usize = 0;
        while k < n_kinds
            invariant
                self.wf(),
                k <= n_kinds,
                n_kinds == self.node_lookup.infos().len(),
                vecs@.len() == k,
                forall|j: int|
                    0 <= j < k ==> (#[trigger] vecs@[j])@ == positions_of(self.kinds@, j as u64),
            decreases n_kinds - k,
        {
            let mut pos64: Vec<u64> = Vec::new();
            if k < self.usage.len() {
                let pos32 = self.usage[k].decompressed();
                let mut j: usize = 0;
                while j < pos32.len()
                    invariant
                        j <= pos32@.len(),
                        pos64@ =~= widen(pos32@).take(j as int),
                    decreases pos32@.len() - j,
                {
                    pos64.push(pos32[j]
                        as u64);
                    proof {
                        assert(pos64@ =~= widen(pos32@).take(j as int + 1));
                    }
                    j += 1;
                }
                proof {
                    assert(pos64@ =~= widen(pos32@));
                }
            } else {
                proof {
                    lemma_positions_of_absent(self.kinds@, k as u64);
                }
            }
            vecs.push(pos64);
            k += 1;
        }
        proof {
            assert forall|j: int| 0 <= j < vecs@.len() implies crate::spec_util::strictly_increasing(
                #[trigger] vecs@[j]@,
            ) by {
                lemma_positions_of_sorted(self.kinds@, j as u64);
            }
            assert forall|j: int, a: int|
                0 <= j < vecs@.len() && 0 <= a < vecs@[j]@.len() implies #[trigger] vecs@[j]@[a]
                < self.len as u64 by {
                lemma_positions_of_sorted(self.kinds@, j as u64);
            }
        }
        let index = NodeInfoVec::new(vecs, self.len);
        (index, self.node_lookup)
    }
}

/// The mid-parse representation of per-kind positions: either roaring
/// bitmaps or bit-packed delta blocks. Neither is observable after the
/// document is built.
pub enum UsageAccum {
    Roaring(RoaringUsageBuilder),
    Bitpacked(BitpackingUsageBuilder),
}

impl UsageAccum {
    pub open spec fn kinds(&self) -> Seq<u64> {
        match self {
            UsageAccum::Roaring(b) => b.kinds@,
            UsageAccum::Bitpacked(b) => b.kinds@,
        }
    }

    pub open spec fn lookup(&self) -> NodeLookup {
        match self {
            UsageAccum::Roaring(b) => b.node_lookup,
            UsageAccum::Bitpacked(b) => b.node_lookup,
        }
    }

    pub open spec fn infos(&self) -> Seq<InfoV> {
        self.lookup().infos()
    }

    pub open spec fn wf(&self) -> bool {
        match self {
            UsageAccum::Roaring(b) => b.wf(),
            UsageAccum::Bitpacked(b) => b.wf(),
        }
    }

    /// A fresh accumulator of the chosen variant.
    pub fn new(bitpacked: bool) -> (r: UsageAccum)
        ensures
            r.wf(),
            r.kinds() == Seq::<u64>::empty(),
            r.infos().len() == crate::kinds::FIXED_KIND_COUNT,
    {
        if bitpacked {
            UsageAccum::Bitpacked(BitpackingUsageBuilder::new())
        } else {
            UsageAccum::Roaring(RoaringUsageBuilder::new())
        }
    }

    /// Interns a kind in the registry.
    pub fn register(&mut self, info: NodeInfo) -> (r: NodeInfoId)
        requires
            old(self).wf(),
        ensures
            final(self).wf(),
            final(self).kinds() == old(self).kinds(),
            r.0 < final(self).infos().len(),
            final(self).infos()[r.0 as int] == info.view(),
            old(self).infos().contains(info.view()) ==> final(self).infos() == old(self).infos(),
            !old(self).infos().contains(info.view()) ==> final(self).infos() == old(
                self,
            ).infos().push(info.view()),
    {
        match self {
            UsageAccum::Roaring(b) => b.node_lookup.register(info),
            UsageAccum::Bitpacked(b) => b.node_lookup.register(info),
        }
    }

    /// Interns the open and close kinds of a field name.
    pub fn register_field_ids(&mut self, name: &str) -> (r: (NodeInfoId, NodeInfoId))
        requires
            old(self).wf(),
        ensures
            final(self).wf(),
            final(self).kinds() == old(self).kinds(),
            old(self).infos().len() <= final(self).infos().len(),
            forall|i: int|
                0 <= i < old(self).infos().len() ==> #[trigger] final(self).infos()[i] == old(
                    self,
                ).infos()[i],
            r.0.0 < final(self).infos().len(),
            r.1.0 < final(self).infos().len(),
            final(self).infos()[r.0.0 as int] == (InfoV {
                kind: crate::kinds::KindV::Field(name@),
                open: true,
            }),
            final(self).infos()[r.1.0 as int] == (InfoV {
                kind: crate::kinds::KindV::Field(name@),
                open: false,
            }),
    {
        match self {
            UsageAccum::Roaring(b) => b.node_lookup.register_field_ids(name),
            UsageAccum::Bitpacked(b) => b.node_lookup.register_field_ids(name),
        }
    }

    /// Records that the next node position is of the given kind.
    pub fn append(&mut self, id: NodeInfoId)
        requires
            old(self).wf(),
            id.0 < old(self).infos().len(),
            old(self).kinds().len() + 1 < u32::MAX,
        ensures
            final(self).wf(),
            final(self).kinds() == old(self).kinds().push(id.0),
            final(self).infos() == old(self).infos(),
    {
        match self {
            UsageAccum::Roaring(b) => b.append(id),
            UsageAccum::Bitpacked(b) => b.append(id),
        }
    }

    /// Freezes the gathered positions into the per-kind index.
    pub fn build(self) -> (r: (NodeInfoVec, NodeLookup))
        requires
            self.wf(),
        ensures
            r.0.wf(),
            r.1 == self.lookup(),
            r.0.kind_count() == self.infos().len(),
            r.0.spec_len() == self.kinds().len(),
            forall|k: int|
                0 <= k < r.0.kind_count() ==> r.0.elems(k) == positions_of(self.kinds(), k as u64),
    {
        match self {
            UsageAccum::Roaring(b) => b.build(),
            UsageAccum::Bitpacked(b) => b.build(),
        }
    }

    /// Approximate heap footprint, for diagnostics.
    pub fn heap_size(&self) -> usize {
        match self {
            UsageAccum::Roaring(b) => b.usage_heap_size(),
            UsageAccum::Bitpacked(b) => b.usage_heap_size(),
        }
    }
}

} // verus!

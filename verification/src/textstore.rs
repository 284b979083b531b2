use vstd::prelude::*;
use crate::cache::{
    cache_entries, cache_cap, cache_get, cache_len, cache_new, cache_put, entry_index,
    lemma_entry_index_range, BlockLru,
};
use crate::compress::{deflate_bytes, deflate_of, inflate_bytes, inflate_of};
use crate::sparse::{sparse_elems, sparse_new, sparse_select1, sparse_universe};
use crate::spec_util::strictly_increasing;
use vstd::utf8::{encode_utf8, valid_utf8};

verus! {

/// Dense index of one stored string across the whole document.
#[derive(Debug, Clone, Copy, PartialEq, Eq, Structural, Hash)]
pub struct TextId(pub usize);

impl TextId {
    pub fn new(id: usize) -> (r: Self)
        ensures
            r.0 == id,
    {
        TextId(id)
    }

    pub fn id(&self) -> (r: usize)
        ensures
            r == self.0,
    {
        self.0
    }
}

/// Index of a compressed block.
#[derive(Debug, Clone, Copy, PartialEq, Eq, Structural, Hash)]
pub struct BlockId(pub usize);

impl BlockId {
    pub fn new(id: usize) -> (r: Self)
        ensures
            r.0 == id,
    {
        BlockId(id)
    }

    pub fn as_index(self) -> (r: usize)
        ensures
            r == self.0,
    {
        self.0
    }
}

/// End offset of segment `j`: the next segment's start, or the end of the
/// buffer for the last segment.
pub open spec fn seg_end(starts: Seq<u64>, buf: Seq<u8>, j: int) -> int {
    if j + 1 < starts.len() {
        starts[j + 1] as int
    } else {
        buf.len() as int
    }
}

/// The buffer holds the UTF-8 bytes of each string in order, each
/// followed by one sentinel byte 0, with `starts` marking where each
/// string begins.
pub open spec fn segments_wf(starts: Seq<u64>, buf: Seq<u8>, strs: Seq<Seq<char>>) -> bool {
    &&& starts.len() == strs.len()
    &&& strs.len() <= usize::MAX
    &&& buf.len() <= usize::MAX
    &&& strictly_increasing(starts)
    &&& (strs.len() == 0 ==> buf.len() == 0)
    &&& (strs.len() > 0 ==> starts[0] == 0)
    &&& forall|j: int|
        0 <= j < strs.len() ==> (starts[j] as int) < #[trigger] seg_end(starts, buf, j) <= buf.len()
    &&& forall|j: int|
        0 <= j < strs.len() ==> buf.subrange(starts[j] as int, seg_end(starts, buf, j) - 1)
            == encode_utf8(#[trigger] strs[j])
    &&& forall|j: int| 0 <= j < strs.len() ==> buf[#[trigger] seg_end(starts, buf, j) - 1] == 0u8
}

/// Appending one string's bytes and a sentinel, and recording the old
/// buffer length as its start, keeps the segment layout well formed.
pub proof fn lemma_segments_push(starts: Seq<u64>, buf: Seq<u8>, strs: Seq<Seq<char>>, s: Seq<char>)
    requires
        segments_wf(starts, buf, strs),
        buf.len() + encode_utf8(s).len() + 1 <= usize::MAX,
        strs.len() + 1 <= usize::MAX,
    ensures
        segments_wf(
            starts.push(buf.len() as u64),
            buf + encode_utf8(s) + seq![0u8],
            strs.push(s),
        ),
{
    let starts2 = starts.push(buf.len() as u64);
    let buf2 = buf + encode_utf8(s) + seq![0u8];
    let strs2 = strs.push(s);
    let n = strs.len() as int;
    assert forall|a: int, b: int| 0 <= a < b < starts2.len() implies starts2[a] < starts2[b] by {
        if b < n {
        } else {
            assert(starts2[b] == buf.len() as u64);
            if a < n {
                assert((starts[a] as int) < seg_end(starts, buf, a) <= buf.len());
            }
        }
    }
    assert forall|j: int| 0 <= j < strs2.len() implies (starts2[j] as int) < #[trigger] seg_end(
        starts2,
        buf2,
        j,
    ) <= buf2.len() by {
        if j < n - 1 {
            assert(seg_end(starts2, buf2, j) == seg_end(starts, buf, j));
        } else if j == n - 1 {
            assert(seg_end(starts, buf, j) == buf.len() as int);
            assert(seg_end(starts2, buf2, j) == buf.len() as int);
        } else {
            assert(seg_end(starts2, buf2, j) == buf2.len() as int);
        }
    }
    assert forall|j: int| 0 <= j < strs2.len() implies buf2.subrange(
        starts2[j] as int,
        #[trigger] seg_end(starts2, buf2, j) - 1,
    ) == encode_utf8(strs2[j]) && buf2[seg_end(starts2, buf2, j) - 1] == 0u8 by {
        if j < n {
            let en = if j == n - 1 {
                buf.len() as int
            } else {
                seg_end(starts, buf, j)
            };
            assert(seg_end(starts2, buf2, j) == en);
            assert(seg_end(starts, buf, j) == en);
            assert(buf2.subrange(starts2[j] as int, en - 1) =~= buf.subrange(
                starts[j] as int,
                en - 1,
            ));
            assert(buf2[en - 1] == buf[en - 1]);
        } else {
            assert(j == n);
            assert(starts2[j] == buf.len() as u64);
            assert(seg_end(starts2, buf2, j) == buf2.len() as int);
            assert(buf2.subrange(buf.len() as int, buf2.len() - 1) =~= encode_utf8(s));
            assert(buf2[buf2.len() - 1] == 0u8);
        }
    }
}

/// One compressed block of the text store.
pub struct Block {
    pub compressed_data: Vec<u8>,
    pub original_size: usize,
    pub start_text_id: TextId,
    pub starts: vers_vecs::SparseRSVec,
    pub buf: Ghost<Seq<u8>>,
    pub strs: Ghost<Seq<Seq<char>>>,
}

impl Block {
    pub open spec fn wf(&self) -> bool {
        &&& self.compressed_data@ == deflate_of(self.buf@)
        &&& inflate_of(self.compressed_data@) == self.buf@
        &&& self.original_size == self.buf@.len()
        &&& sparse_universe(self.starts) == self.original_size as u64
        &&& sparse_elems(self.starts) == self.starts_seq()
        &&& segments_wf(self.starts_seq(), self.buf@, self.strs@)
        &&& self.strs@.len() > 0
    }

    /// The start offsets of the strings in this block.
    pub open spec fn starts_seq(&self) -> Seq<u64> {
        sparse_elems(self.starts)
    }

    /// Compresses a finished buffer into a block.
    pub fn compress(
        start_text_id: TextId,
        starts: &Vec<u64>,
        data: &Vec<u8>,
        strs: Ghost<Seq<Seq<char>>>,
    ) -> (r: Block)
        requires
            segments_wf(starts@, data@, strs@),
            strs@.len() > 0,
        ensures
            r.wf(),
            r.buf@ == data@,
            r.strs@ == strs@,
            r.start_text_id == start_text_id,
            r.starts_seq() == starts@,
    {
        proof {
            assert forall|a: int| 0 <= a < starts@.len() implies starts@[a] < data@.len() as u64 by {
                assert((starts@[a] as int) < seg_end(starts@, data@, a) <= data@.len());
            }
        }
        let compressed_data = deflate_bytes(data.as_slice());
        let sp = sparse_new(starts, data.len() as u64);
        Block {
            compressed_data,
            original_size: data.len(),
            start_text_id,
            starts: sp,
            buf: Ghost(data@),
            strs,
        }
    }

    /// Restores the uncompressed buffer of the block.
    pub fn decompress(&self) -> (r: Vec<u8>)
        requires
            self.wf(),
        ensures
            r@ == self.buf@,
    {
        proof {
            assert(self.compressed_data@ == deflate_of(self.buf@));
        }
        inflate_bytes(self.compressed_data.as_slice(), self.original_size)
    }

    /// Decodes every string held by the block, in order.
    pub fn block_strings(&self) -> (r: Vec<String>)
        requires
            self.wf(),
        ensures
            r.deep_view() == self.strs@,
    {
        let data = self.decompress();
        let starts = crate::sparse::sparse_positions_vec(&self.starts);
        let n = starts.len();
        let mut out: Vec<String> = Vec::new();
        let mut j: usize = 0;
        while j < n
            invariant
                self.wf(),
                data@ == self.buf@,
                starts@ == self.starts_seq(),
                n == starts@.len(),
                j <= n,
                out.deep_view() =~= self.strs@.take(j as int),
            decreases n - j,
        {
            let st = starts[j];
            let en: u64 = if j + 1 < n {
                starts[j + 1]
            } else {
                proof {
                    assert(seg_end(self.starts_seq(), self.buf@, j as int) == self.buf@.len());
                }
                data.len() as u64
            };
            proof {
                assert((starts@[j as int] as int) < seg_end(self.starts_seq(), self.buf@, j as int)
                    <= self.buf@.len());
                assert(en as int == seg_end(self.starts_seq(), self.buf@, j as int));
            }
            proof {
                assert(self.buf@.len() <= usize::MAX);
                assert(st as int == self.starts_seq()[j as int] as int);
                assert((st as int) < (en as int) && (en as int) <= self.buf@.len() as int);
                assert(st as usize as int == st as int);
                assert((en as usize) as int == en as int);
            }
            let seg = vstd::slice::slice_subrange(data.as_slice(), st as usize, en as usize - 1);
            let seg_vec = vstd::slice::slice_to_vec(seg);
            proof {
                assert(seg_vec@ == self.buf@.subrange(
                    self.starts_seq()[j as int] as int,
                    seg_end(self.starts_seq(), self.buf@, j as int) - 1,
                ));
                assert(seg_vec@ == encode_utf8(self.strs@[j as int]));
                vstd::utf8::encode_utf8_valid_utf8(self.strs@[j as int]);
            }
            let s = string_from_utf8(seg_vec);
            proof {
                vstd::utf8::encode_utf8_decode_utf8(s@);
                vstd::utf8::encode_utf8_decode_utf8(self.strs@[j as int]);
                assert(s@ == self.strs@[j as int]);
            }
            let ghost prev = out.deep_view();
            let ghost prev_vec = out@;
            proof {
                assert(prev.len() == j as int);
                assert(prev_vec.len() == j as int);
            }
            out.push(s);
            proof {
                assert forall|i: int| 0 <= i < out.deep_view().len() implies out.deep_view()[i]
                    == self.strs@.take(j as int + 1)[i] by {
                    if i < j as int {
                        assert(out.deep_view().len() == out@.len());
                        assert(out.deep_view()[i] == out@[i].deep_view());
                        assert(out@ == prev_vec.push(s));
                        assert(prev_vec.push(s)[i] == prev_vec[i]);
                        assert(out@[i] == prev_vec[i]);
                        assert(out.deep_view()[i] == prev[i]);
                        assert(prev[i] == self.strs@.take(j as int)[i]);
                    } else {
                        assert(out.deep_view()[i] == s@);
                    }
                }
                assert(out.deep_view() =~= self.strs@.take(j as int + 1));
            }
            j += 1;
        }
        proof {
            assert(self.strs@.take(n as int) =~= self.strs@);
        }
        out
    }

    /// Compressed footprint of the block, for diagnostics.
    pub fn heap_size(&self) -> usize {
        self.compressed_data.len().saturating_add(crate::sparse::sparse_heap_size(&self.starts))
    }

    /// Uncompressed footprint of the block, for diagnostics.
    pub fn uncompressed_size(&self) -> usize {
        self.original_size.saturating_add(crate::sparse::sparse_heap_size(&self.starts))
    }
}

/// Relies on String::from_utf8: rebuilds the string whose UTF-8 encoding
/// the given bytes are. Valid UTF-8 cannot be rejected.
#[verifier::external_body]
fn string_from_utf8(v: Vec<u8>) -> (r: String)
    requires
        valid_utf8(v@),
    ensures
        encode_utf8(r@) == v@,
{
    String::from_utf8(v).expect("segments hold the bytes of valid strings")
}


/// The strings of the store: every block's strings in block order, then
/// the strings still pending in the builder's buffer.
pub open spec fn store_wf(blocks: Seq<Block>, texts: Seq<BlockId>, all: Seq<Seq<char>>) -> bool {
    &&& texts.len() <= all.len()
    &&& forall|b: int| 0 <= b < blocks.len() ==> (#[trigger] blocks[b]).wf()
    &&& forall|t: int|
        0 <= t < texts.len() ==> (#[trigger] texts[t]).0 < blocks.len()
            && blocks[texts[t].0 as int].start_text_id.0 <= t && t - blocks[
            texts[t].0 as int
        ].start_text_id.0 < blocks[texts[t].0 as int].strs@.len() && all[t] == blocks[
            texts[t].0 as int
        ].strs@[t - blocks[texts[t].0 as int].start_text_id.0]
}

/// Builder of the block-compressed text store. Strings accumulate in a
/// buffer that is sealed into a compressed block when the next string
/// would push it past the block size.
pub struct TextUsageBuilder {
    pub block_size: usize,
    pub cache_capacity: usize,
    pub current_block_buffer: Vec<u8>,
    pub current_block_starts: Vec<u64>,
    pub blocks: Vec<Block>,
    pub texts: Vec<BlockId>,
    pub all: Ghost<Seq<Seq<char>>>,
}

impl TextUsageBuilder {
    /// The strings added so far.
    pub open spec fn strs(&self) -> Seq<Seq<char>> {
        self.all@
    }

    /// The strings whose bytes still sit in the open buffer.
    pub open spec fn pending(&self) -> Seq<Seq<char>> {
        self.all@.skip(self.texts@.len() as int)
    }

    /// Whether adding a string with these bytes would push the open
    /// buffer past the block size and so seal it first.
    pub open spec fn would_seal(&self, text: Seq<char>) -> bool {
        self.current_block_buffer@.len() + encode_utf8(text).len() > self.block_size
            && self.current_block_buffer@.len() > 0
    }

    pub open spec fn wf(&self) -> bool {
        &&& self.block_size < usize::MAX
        &&& self.texts@.len() <= self.all@.len()
        &&& self.all@.len() - self.texts@.len() == self.current_block_starts@.len()
        &&& segments_wf(self.current_block_starts@, self.current_block_buffer@, self.pending())
        &&& store_wf(self.blocks@, self.texts@, self.all@)
    }

    pub fn new(block_size: usize, cache_capacity: usize) -> (r: TextUsageBuilder)
        requires
            block_size < usize::MAX,
        ensures
            r.wf(),
            r.strs() == Seq::<Seq<char>>::empty(),
            r.block_size == block_size,
            r.cache_capacity == cache_capacity,
            r.blocks@.len() == 0,
    {
        TextUsageBuilder {
            block_size,
            cache_capacity,
            current_block_buffer: Vec::new(),
            current_block_starts: Vec::new(),
            blocks: Vec::new(),
            texts: Vec::new(),
            all: Ghost(Seq::empty()),
        }
    }

    /// Stores one string and returns its dense index. When the buffer
    /// already holds bytes and the new string would push it past the
    /// block size, the buffer is sealed into a block first.
    pub fn add_string(&mut self, text: &str) -> (r: TextId)
        requires
            old(self).wf(),
            old(self).strs().len() < usize::MAX,
            encode_utf8(text@).len() < usize::MAX,
        ensures
            final(self).wf(),
            final(self).strs() == old(self).strs().push(text@),
            r.0 == old(self).strs().len(),
            final(self).block_size == old(self).block_size,
            final(self).cache_capacity == old(self).cache_capacity,
            old(self).would_seal(text@) ==> final(self).blocks@.len() == old(self).blocks@.len()
                + 1 && final(self).pending() =~= seq![text@]
                && final(self).blocks@.last().strs@ == old(self).pending(),
            forall|b: int|
                0 <= b < old(self).blocks@.len() ==> #[trigger] final(self).blocks@[b]
                    == old(self).blocks@[b],
            !old(self).would_seal(text@) ==> final(self).blocks@ == old(self).blocks@
                && final(self).pending() =~= old(self).pending().push(text@),
    {
        let text_bytes: &[u8] = text.as_bytes();
        let text_id = TextId(self.texts.len() + self.current_block_starts.len());
        let cur = self.current_block_buffer.len();
        let over = cur > 0 && match cur.checked_add(text_bytes.len()) {
            Some(total) => total > self.block_size,
            None => true,
        };
        if over {
            self.finalize_current_block();
        }
        let ghost starts0 = self.current_block_starts@;
        let ghost buf0 = self.current_block_buffer@;
        let ghost pend0 = self.pending();
        let start = self.current_block_buffer.len();
        self.current_block_buffer.extend_from_slice(text_bytes);
        self.current_block_buffer.push(0);
        self.current_block_starts.push(start as u64);
        proof {
            lemma_segments_push(starts0, buf0, pend0, text@);
            assert(self.current_block_buffer@ =~= buf0 + encode_utf8(text@) + seq![0u8]);
        }
        proof {
            self.all@ = self.all@.push(text@);
            assert(self.pending() =~= pend0.push(text@));
        }
        proof {
            assert forall|t: int| 0 <= t < self.texts@.len() implies (#[trigger] self.texts@[t]).0
                < self.blocks@.len() && self.blocks@[self.texts@[t].0 as int].start_text_id.0 <= t
                && t - self.blocks@[self.texts@[t].0 as int].start_text_id.0 < self.blocks@[
                self.texts@[t].0 as int
            ].strs@.len() && self.all@[t] == self.blocks@[self.texts@[t].0 as int].strs@[t - self.blocks@[
                self.texts@[t].0 as int
            ].start_text_id.0] by {
                assert(self.all@[t] == old(self).all@[t]);
            }
        }
        text_id
    }

    /// Seals the open buffer, if it holds anything, into a compressed
    /// block and records which block each pending string lives in.
    pub fn finalize_current_block(&mut self)
        requires
            old(self).wf(),
        ensures
            final(self).wf(),
            final(self).all@ == old(self).all@,
            final(self).block_size == old(self).block_size,
            final(self).cache_capacity == old(self).cache_capacity,
            final(self).texts@.len() == final(self).all@.len(),
            final(self).current_block_buffer@.len() == 0,
            final(self).current_block_starts@.len() == 0,
            old(self).pending().len() == 0 ==> final(self).blocks@ == old(self).blocks@,
            old(self).pending().len() > 0 ==> final(self).blocks@.len() == old(self).blocks@.len()
                + 1 && final(self).blocks@.last().strs@ == old(self).pending()
                && final(self).blocks@.last().start_text_id.0 == old(self).texts@.len(),
            forall|b: int|
                0 <= b < old(self).blocks@.len() ==> #[trigger] final(self).blocks@[b]
                    == old(self).blocks@[b],
    {
        if self.current_block_starts.is_empty() {
            proof {
                assert(self.pending().len() == 0);
                assert(self.texts@.len() == self.all@.len());
                assert(self.current_block_buffer@.len() == 0);
            }
            return ;
        }
        let ghost pend0 = self.pending();
        let block_id = BlockId(self.blocks.len());
        let start_text_id = TextId(self.texts.len());
        let n = self.current_block_starts.len();
        let ghost texts0 = self.texts@;
        let mut c: usize = 0;
        while c < n
            invariant
                c <= n,
                self.texts@ =~= texts0 + Seq::new(c as nat, |i: int| block_id),
                self.blocks@ == old(self).blocks@,
                self.all@ == old(self).all@,
                self.current_block_starts@ == old(self).current_block_starts@,
                self.current_block_buffer@ == old(self).current_block_buffer@,
                self.block_size == old(self).block_size,
                self.cache_capacity == old(self).cache_capacity,
                block_id.0 == self.blocks@.len(),
                start_text_id.0 == texts0.len(),
                n == old(self).current_block_starts@.len(),
                texts0.len() + n == self.all@.len(),
            decreases n - c,
        {
            self.texts.push(block_id);
            c += 1;
        }
        let block = Block::compress(
            start_text_id,
            &self.current_block_starts,
            &self.current_block_buffer,
            Ghost(pend0),
        );
        self.blocks.push(block);
        self.current_block_buffer = Vec::new();
        self.current_block_starts = Vec::new();
        proof {
            assert(self.pending() =~= Seq::<Seq<char>>::empty());
            assert(segments_wf(
                self.current_block_starts@,
                self.current_block_buffer@,
                self.pending(),
            ));
            let blocks2 = self.blocks@;
            let texts2 = self.texts@;
            let all2 = self.all@;
            assert forall|b: int| 0 <= b < blocks2.len() implies (#[trigger] blocks2[b]).wf() by {
                if b < blocks2.len() - 1 {
                    assert(blocks2[b] == old(self).blocks@[b]);
                    assert(old(self).blocks@[b].wf());
                }
            }
            assert forall|t: int| 0 <= t < texts2.len() implies (#[trigger] texts2[t]).0
                < blocks2.len() && blocks2[texts2[t].0 as int].start_text_id.0 <= t && t - blocks2[
                texts2[t].0 as int
            ].start_text_id.0 < blocks2[texts2[t].0 as int].strs@.len() && all2[t] == blocks2[
                texts2[t].0 as int
            ].strs@[t - blocks2[texts2[t].0 as int].start_text_id.0] by {
                if t < texts0.len() {
                    assert(texts2[t] == texts0[t]);
                    assert(old(self).texts@[t].0 < old(self).blocks@.len());
                    assert(blocks2[texts2[t].0 as int] == old(self).blocks@[texts2[t].0 as int]);
                } else {
                    assert(texts2[t] == block_id);
                    assert(blocks2[block_id.0 as int] == self.blocks@.last());
                    assert(all2[t] == pend0[t - texts0.len() as int]);
                }
            }
        }
    }

    /// Approximate heap footprint of the builder, for diagnostics.
    pub fn heap_size(&self) -> usize {
        let mut total: usize = self.current_block_buffer.len().saturating_add(
            words_size(self.current_block_starts.len()),
        );
        let mut b: usize = 0;
        while b < self.blocks.len()
            decreases self.blocks@.len() - b,
        {
            total = total.saturating_add(self.blocks[b].heap_size());
            b += 1;
        }
        total.saturating_add(words_size(self.texts.len()))
    }

    /// Total size of the stored text before compression, for diagnostics.
    pub fn uncompressed_size(&self) -> usize {
        let mut total: usize = 0;
        let mut b: usize = 0;
        while b < self.blocks.len()
            decreases self.blocks@.len() - b,
        {
            total = total.saturating_add(self.blocks[b].uncompressed_size());
            b += 1;
        }
        total.saturating_add(words_size(self.texts.len()))
    }

    /// Seals the last block and installs the decompression cache.
    pub fn build(self) -> (r: TextUsage)
        requires
            self.wf(),
        ensures
            r.wf(),
            r.all@ == self.all@,
            r.cache_capacity == self.cache_capacity,
            cache_entries(r.cache).len() == 0,
            self.pending().len() == 0 ==> r.blocks@ == self.blocks@,
            self.pending().len() > 0 ==> r.blocks@.len() == self.blocks@.len() + 1
                && r.blocks@.last().strs@ == self.pending() && r.blocks@.last().start_text_id.0
                == self.texts@.len(),
            forall|b: int|
                0 <= b < self.blocks@.len() ==> #[trigger] r.blocks@[b] == self.blocks@[b],
    {
        let mut me = self;
        me.finalize_current_block();
        let capacity = if me.cache_capacity == 0 {
            1
        } else {
            me.cache_capacity
        };
        let cache = cache_new(capacity);
        TextUsage {
            blocks: me.blocks,
            texts: me.texts,
            cache,
            cache_capacity: me.cache_capacity,
            all: me.all,
        }
    }
}


/// A stored string survives everything that comes after it: once added
/// at index `t`, any later adds and the sealing of blocks only extend
/// the store's model, so the string at `t` stays byte for byte what was
/// added — block boundaries never bend a stored string, and
/// `get_string` returns exactly it.
pub proof fn lemma_added_string_persists(before: Seq<Seq<char>>, s: Seq<char>, after: Seq<Seq<char>>)
    requires
        before.push(s).is_prefix_of(after),
    ensures
        after[before.len() as int] == s,
{
    assert(before.push(s)[before.len() as int] == s);
    assert(after.take(before.len() as int + 1) == before.push(s));
    assert(after.take(before.len() as int + 1)[before.len() as int] == after[before.len() as int]);
}

/// A string at least as large as the block size never shares a block:
/// adding it seals any previous content first (the seal guard fires on
/// every non-empty buffer), and where the buffer was empty nothing was
/// pending, so in both outcomes of `add_string` the string stands alone
/// in the pending buffer — and the block that later seals it (by a
/// further add or by `build`) holds exactly that one string.
pub proof fn lemma_exact_size_stands_alone(
    pre: &TextUsageBuilder,
    post: &TextUsageBuilder,
    s: Seq<char>,
)
    requires
        pre.wf(),
        encode_utf8(s).len() >= pre.block_size,
        pre.would_seal(s) ==> post.pending() == seq![s],
        !pre.would_seal(s) ==> post.pending() == pre.pending().push(s),
    ensures
        post.pending() == seq![s],
{
    if !pre.would_seal(s) {
        assert(pre.current_block_buffer@.len() == 0);
        assert(pre.pending().len() == 0) by {
            if pre.pending().len() > 0 {
                assert((pre.current_block_starts@[0] as int) < seg_end(
                    pre.current_block_starts@,
                    pre.current_block_buffer@,
                    0,
                ));
            }
        }
        assert(post.pending() =~= seq![s]);
    }
}

/// The resident set after one block is touched: a hit promotes the entry
/// to the front; a miss inserts at the front, dropping the least
/// recently used entry when the cache is already full.
pub open spec fn cache_after_touch(
    entries: Seq<(usize, Seq<Seq<char>>)>,
    cap: nat,
    k: usize,
    v: Seq<Seq<char>>,
) -> Seq<(usize, Seq<Seq<char>>)> {
    if entry_index(entries, k) < entries.len() {
        seq![entries[entry_index(entries, k)]] + entries.remove(entry_index(entries, k))
    } else if entries.len() < cap {
        seq![(k, v)] + entries
    } else {
        seq![(k, v)] + entries.drop_last()
    }
}

/// The block-compressed text store: sealed blocks, the map from string
/// index to block, and the LRU cache of decoded blocks.
pub struct TextUsage {
    pub blocks: Vec<Block>,
    pub texts: Vec<BlockId>,
    pub cache: BlockLru,
    pub cache_capacity: usize,
    pub all: Ghost<Seq<Seq<char>>>,
}

impl TextUsage {
    /// The strings the store holds, in insertion order.
    pub open spec fn strs(&self) -> Seq<Seq<char>> {
        self.all@
    }

    pub open spec fn entries(&self) -> Seq<(usize, Seq<Seq<char>>)> {
        cache_entries(self.cache)
    }

    pub open spec fn wf(&self) -> bool {
        &&& store_wf(self.blocks@, self.texts@, self.all@)
        &&& self.texts@.len() == self.all@.len()
        &&& cache_cap(self.cache) == if self.cache_capacity == 0 {
            1nat
        } else {
            self.cache_capacity as nat
        }
        &&& forall|e: int|
            0 <= e < self.entries().len() ==> (#[trigger] self.entries()[e]).0 < self.blocks@.len()
                && self.entries()[e].1 == self.blocks@[self.entries()[e].0 as int].strs@
        &&& forall|a: int, b: int|
            0 <= a < b < self.entries().len() ==> (#[trigger] self.entries()[a]).0 != (
            #[trigger] self.entries()[b]).0
        &&& self.entries().len() <= cache_cap(self.cache)
        &&& (self.cache_capacity == 0 ==> self.entries().len() == 0)
    }

    /// Retrieves a stored string. The block holding it is decoded unless
    /// it is resident in the cache; with caching enabled the decoded
    /// block becomes the most recently used entry.
    pub fn get_string(&mut self, text_id: TextId) -> (r: String)
        requires
            old(self).wf(),
            text_id.0 < old(self).strs().len(),
        ensures
            final(self).wf(),
            r@ == old(self).strs()[text_id.0 as int],
            final(self).blocks@ == old(self).blocks@,
            final(self).texts@ == old(self).texts@,
            final(self).all@ == old(self).all@,
            final(self).cache_capacity == old(self).cache_capacity,
            old(self).cache_capacity == 0 ==> final(self).entries() == old(self).entries(),
            old(self).cache_capacity > 0 ==> final(self).entries() == cache_after_touch(
                old(self).entries(),
                cache_cap(old(self).cache),
                old(self).texts@[text_id.0 as int].0,
                old(self).blocks@[old(self).texts@[text_id.0 as int].0 as int].strs@,
            ),
    {
        let block_id = self.texts[text_id.0];
        let bi = block_id.0;
        let offset = text_id.0 - self.blocks[bi].start_text_id.0;
        let ghost bstrs = self.blocks@[bi as int].strs@;
        if self.cache_capacity > 0 {
            let hit = cache_get(&mut self.cache, bi);
            proof {
                lemma_entry_index_range(old(self).entries(), bi);
            }
            match hit {
                Some(strings) => {
                    proof {
                        assert(strings.deep_view() == bstrs);
                        assert(strings.deep_view().len() == strings@.len());
                        assert(strings@[offset as int].deep_view() == bstrs[offset as int]);
                    }
                    let r = clone_string(&strings[offset]);
                    proof {
                        lemma_cache_wf_after_touch(old(self), self.cache, bi);
                    }
                    r
                },
                None => {
                    let strings = self.blocks[bi].block_strings();
                    proof {
                        assert(strings.deep_view().len() == strings@.len());
                        assert(strings@[offset as int].deep_view() == bstrs[offset as int]);
                    }
                    let r = clone_string(&strings[offset]);
                    cache_put(&mut self.cache, bi, strings);
                    proof {
                        lemma_cache_wf_after_touch(old(self), self.cache, bi);
                    }
                    r
                },
            }
        } else {
            let strings = self.blocks[bi].block_strings();
            proof {
                assert(strings.deep_view().len() == strings@.len());
                assert(strings@[offset as int].deep_view() == bstrs[offset as int]);
            }
            clone_string(&strings[offset])
        }
    }

    /// Retrieves a stored string without touching the cache: the block
    /// holding it is decoded afresh. This is the read path of shared
    /// document queries, which do not hold the store mutably.
    pub fn fetch_string(&self, text_id: TextId) -> (r: String)
        requires
            self.wf(),
            text_id.0 < self.strs().len(),
        ensures
            r@ == self.strs()[text_id.0 as int],
    {
        let block_id = self.texts[text_id.0];
        let bi = block_id.0;
        let offset = text_id.0 - self.blocks[bi].start_text_id.0;
        let strings = self.blocks[bi].block_strings();
        proof {
            assert(strings.deep_view().len() == strings@.len());
            assert(strings@[offset as int].deep_view() == self.blocks@[bi as int].strs@[
                offset as int
            ]);
        }
        clone_string(&strings[offset])
    }

    /// Counts of stored strings, sealed blocks, byte sizes, and resident
    /// cache entries.
    pub fn stats(&self) -> (r: StorageStats)
        requires
            self.wf(),
        ensures
            r.total_texts == self.texts@.len(),
            r.total_blocks == self.blocks@.len(),
            self.cache_capacity == 0 ==> r.cache_size == 0,
            self.cache_capacity > 0 ==> r.cache_size == self.entries().len(),
            compressed_sum(self.blocks@, self.blocks@.len() as int) <= usize::MAX
                ==> r.compressed_size == compressed_sum(self.blocks@, self.blocks@.len() as int),
            original_sum(self.blocks@, self.blocks@.len() as int) <= usize::MAX
                ==> r.original_size == original_sum(self.blocks@, self.blocks@.len() as int),
    {
        let mut compressed_size: usize = 0;
        let mut original_size: usize = 0;
        let mut b: usize = 0;
        while b < self.blocks.len()
            invariant
                b <= self.blocks@.len(),
                compressed_size <= compressed_sum(self.blocks@, b as int),
                compressed_sum(self.blocks@, b as int) <= usize::MAX ==> compressed_size
                    == compressed_sum(self.blocks@, b as int),
                original_size <= original_sum(self.blocks@, b as int),
                original_sum(self.blocks@, b as int) <= usize::MAX ==> original_size
                    == original_sum(self.blocks@, b as int),
            decreases self.blocks@.len() - b,
        {
            compressed_size = compressed_size.saturating_add(self.blocks[b].compressed_data.len());
            original_size = original_size.saturating_add(self.blocks[b].original_size);
            b += 1;
        }
        let cache_size = if self.cache_capacity == 0 {
            0
        } else {
            cache_len(&self.cache)
        };
        StorageStats {
            total_texts: self.texts.len(),
            total_blocks: self.blocks.len(),
            compressed_size,
            original_size,
            cache_size,
        }
    }

    /// Approximate heap footprint of the persistent storage. The cache
    /// is left out: it is transient and no query grows anything else.
    pub fn heap_size(&self) -> usize {
        let mut total: usize = 0;
        let mut b: usize = 0;
        while b < self.blocks.len()
            decreases self.blocks@.len() - b,
        {
            total = total.saturating_add(self.blocks[b].heap_size());
            b += 1;
        }
        total.saturating_add(words_size(self.texts.len()))
    }
}


/// Eight bytes for each table entry, saturating at the address limit.
fn words_size(n: usize) -> usize {
    match n.checked_mul(8) {
        Some(v) => v,
        None => usize::MAX,
    }
}

/// Total compressed bytes of the first `n` blocks.
pub open spec fn compressed_sum(blocks: Seq<Block>, n: int) -> int
    decreases n,
{
    if n <= 0 {
        0
    } else {
        compressed_sum(blocks, n - 1) + blocks[n - 1].compressed_data@.len()
    }
}

/// Total uncompressed bytes of the first `n` blocks.
pub open spec fn original_sum(blocks: Seq<Block>, n: int) -> int
    decreases n,
{
    if n <= 0 {
        0
    } else {
        original_sum(blocks, n - 1) + blocks[n - 1].original_size
    }
}

/// Statistics of the text store.
#[derive(Debug, Clone)]
pub struct StorageStats {
    pub total_texts: usize,
    pub total_blocks: usize,
    pub compressed_size: usize,
    pub original_size: usize,
    pub cache_size: usize,
}

/// Relies on String::clone.
fn clone_string(s: &String) -> (r: String)
    ensures
        r@ == s@,
{
    s.clone()
}

/// Touching a block keeps the cache well formed with respect to the
/// store: every resident entry still holds the decoded strings of its
/// block, keys stay distinct, and the capacity is respected.
proof fn lemma_cache_wf_after_touch(pre: &TextUsage, cache2: BlockLru, k: usize)
    requires
        pre.wf(),
        pre.cache_capacity > 0,
        k < pre.blocks@.len(),
        cache_cap(cache2) == cache_cap(pre.cache),
        cache_entries(cache2) == cache_after_touch(
            cache_entries(pre.cache),
            cache_cap(pre.cache),
            k,
            pre.blocks@[k as int].strs@,
        ),
    ensures
        forall|e: int|
            0 <= e < cache_entries(cache2).len() ==> (#[trigger] cache_entries(cache2)[e]).0
                < pre.blocks@.len() && cache_entries(cache2)[e].1 == pre.blocks@[cache_entries(
                cache2,
            )[e].0 as int].strs@,
        forall|a: int, b: int|
            0 <= a < b < cache_entries(cache2).len() ==> (#[trigger] cache_entries(cache2)[a]).0
                != (#[trigger] cache_entries(cache2)[b]).0,
        cache_entries(cache2).len() <= cache_cap(pre.cache),
{
    let s = cache_entries(pre.cache);
    let s2 = cache_entries(cache2);
    let j = entry_index(s, k);
    lemma_entry_index_range(s, k);
    if j < s.len() {
        assert forall|e: int| 0 <= e < s2.len() implies s2[e] == s[promote_source(j, e)]
            && 0 <= promote_source(j, e) < s.len() by {
            if e == 0 {
            } else if e <= j {
                assert(s.remove(j)[e - 1] == s[e - 1]);
            } else {
                assert(s.remove(j)[e - 1] == s[e]);
            }
        }
        assert forall|a: int, b: int| 0 <= a < b < s2.len() implies (#[trigger] s2[a]).0 != (
        #[trigger] s2[b]).0 by {
            assert(s2[a] == s[promote_source(j, a)]);
            assert(s2[b] == s[promote_source(j, b)]);
            assert(promote_source(j, a) != promote_source(j, b));
        }
    } else {
        if s.len() < cache_cap(pre.cache) {
            assert forall|a: int, b: int| 0 <= a < b < s2.len() implies (#[trigger] s2[a]).0 != (
            #[trigger] s2[b]).0 by {
                if a == 0 {
                    assert(s2[b] == s[b - 1]);
                    assert(s[b - 1].0 != k) by {
                        lemma_entry_index_range(s, k);
                    }
                } else {
                    assert(s2[a] == s[a - 1]);
                    assert(s2[b] == s[b - 1]);
                }
            }
        } else {
            assert forall|a: int, b: int| 0 <= a < b < s2.len() implies (#[trigger] s2[a]).0 != (
            #[trigger] s2[b]).0 by {
                if a == 0 {
                    assert(s2[b] == s.drop_last()[b - 1]);
                    assert(s.drop_last()[b - 1] == s[b - 1]);
                    assert(s[b - 1].0 != k);
                } else {
                    assert(s2[a] == s[a - 1]);
                    assert(s2[b] == s[b - 1]);
                }
            }
        }
    }
}

/// Where entry `e` of a promoted cache came from in the old one.
pub open spec fn promote_source(j: int, e: int) -> int {
    if e == 0 {
        j
    } else if e <= j {
        e - 1
    } else {
        e
    }
}

/// The least-recently-used contract: when a full cache that does not
/// hold block `k` is touched with `k`, the least recently used entry is
/// evicted and `k` becomes resident.
pub proof fn lemma_lru_eviction(
    entries: Seq<(usize, Seq<Seq<char>>)>,
    cap: nat,
    k: usize,
    v: Seq<Seq<char>>,
)
    requires
        forall|a: int, b: int|
            0 <= a < b < entries.len() ==> (#[trigger] entries[a]).0 != (#[trigger] entries[b]).0,
        entries.len() == cap,
        cap > 0,
        entry_index(entries, k) >= entries.len(),
    ensures
        entry_index(cache_after_touch(entries, cap, k, v), entries.last().0) >= cache_after_touch(
            entries,
            cap,
            k,
            v,
        ).len(),
        entry_index(cache_after_touch(entries, cap, k, v), k) == 0,
{
    let s2 = cache_after_touch(entries, cap, k, v);
    lemma_entry_index_range(entries, k);
    let lru = entries.last().0;
    assert forall|e: int| 0 <= e < s2.len() implies (#[trigger] s2[e]).0 != lru by {
        if e == 0 {
            assert(s2[e].0 == k);
            assert(entries[entries.len() - 1].0 == lru);
        } else {
            assert(s2[e] == entries.drop_last()[e - 1]);
            assert(entries.drop_last()[e - 1] == entries[e - 1]);
            assert(entries[e - 1].0 != entries[entries.len() - 1].0);
        }
    }
    crate::cache::lemma_entry_index_absent(s2, lru);
    assert(s2[0].0 == k);
}

} // verus!

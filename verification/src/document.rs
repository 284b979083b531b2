use vstd::prelude::*;
use crate::bits::{bitvec_append, bitvec_bits, bitvec_get, bitvec_heap_size, bitvec_new};
use crate::bp::{bp_bits, bp_first_child, bp_from_bits, bp_heap_size, bp_next_sibling, bp_root, fc_scan, find_close};
use crate::kinds::{
    InfoV, KindV, NodeInfo, NodeInfoId, NodeType, ARRAY_CLOSE_ID, ARRAY_OPEN_ID, BOOLEAN_CLOSE_ID,
    BOOLEAN_OPEN_ID, NULL_CLOSE_ID, NULL_OPEN_ID, NUMBER_CLOSE_ID, NUMBER_OPEN_ID, OBJECT_CLOSE_ID,
    OBJECT_OPEN_ID, STRING_CLOSE_ID, STRING_OPEN_ID,
};
use crate::registry::NodeLookup;
use crate::spec_util::{
    count_below, lemma_count_below_all, lemma_count_below_step, lemma_positions_of_contains,
    lemma_positions_of_push, lemma_positions_of_sorted, positions_of,
};
use crate::textstore::{TextUsage, TextUsageBuilder};
use crate::tokens::{
    after_value, can_value, complete_value_run, lemma_mrun_append, lemma_value_run_complete,
    m_done, m_init, mrun, mstep, value_run, MState, Token,
};
use crate::tokenizer::{swf, tok_named, tok_remaining, tok_stack, tokens_of, JsonParseError, Tokenizer, ValueType};
use crate::usage_builders::UsageAccum;
use crate::usage_index::NodeInfoVec;
use crate::emitter::{emit_events, Emitter};

verus! {

/// The mathematical content of a document: the kind of every position,
/// the registered kinds, and the three value stores.
pub struct DocData {
    pub kinds: Seq<u64>,
    pub infos: Seq<InfoV>,
    pub strs: Seq<Seq<char>>,
    pub nums: Seq<Seq<char>>,
    pub bools: Seq<bool>,
}

/// How many positions of kind `k` lie strictly before position `j`.
pub open spec fn rank_at(kinds: Seq<u64>, k: u64, j: int) -> int {
    positions_of(kinds.take(j), k).len() as int
}

/// The name a field kind carries.
pub open spec fn field_name(i: InfoV) -> Seq<char> {
    match i.kind {
        KindV::Field(n) => n,
        _ => Seq::empty(),
    }
}

/// The tokens position `j` stands for: one token at each opening
/// position and at container closes, nothing at the closing position of
/// a leaf or of a field.
pub open spec fn contribution(d: DocData, j: int) -> Seq<Token> {
    let k = d.kinds[j];
    if k == OBJECT_OPEN_ID {
        seq![Token::BeginObject]
    } else if k == OBJECT_CLOSE_ID {
        seq![Token::EndObject]
    } else if k == ARRAY_OPEN_ID {
        seq![Token::BeginArray]
    } else if k == ARRAY_CLOSE_ID {
        seq![Token::EndArray]
    } else if k == STRING_OPEN_ID {
        seq![Token::Str(d.strs[rank_at(d.kinds, STRING_OPEN_ID, j)])]
    } else if k == NUMBER_OPEN_ID {
        seq![Token::Num(d.nums[rank_at(d.kinds, NUMBER_OPEN_ID, j)])]
    } else if k == BOOLEAN_OPEN_ID {
        seq![Token::Bool(d.bools[rank_at(d.kinds, BOOLEAN_OPEN_ID, j)])]
    } else if k == NULL_OPEN_ID {
        seq![Token::Null]
    } else if k == STRING_CLOSE_ID || k == NUMBER_CLOSE_ID || k == BOOLEAN_CLOSE_ID || k
        == NULL_CLOSE_ID {
        Seq::empty()
    } else if (k as int) < d.infos.len() && d.infos[k as int].open && d.infos[k as int].kind
        is Field {
        seq![Token::Name(field_name(d.infos[k as int]))]
    } else {
        Seq::empty()
    }
}

/// The tokens of the first `j` positions, in order.
pub open spec fn tokens_upto(d: DocData, j: int) -> Seq<Token>
    decreases j,
{
    if j <= 0 {
        Seq::empty()
    } else {
        tokens_upto(d, j - 1) + contribution(d, j - 1)
    }
}

/// The tokens of the positions from `j` on.
pub open spec fn tokens_from(d: DocData, j: int) -> Seq<Token>
    decreases d.kinds.len() - j,
{
    if j < 0 || j >= d.kinds.len() {
        Seq::empty()
    } else {
        contribution(d, j) + tokens_from(d, j + 1)
    }
}

/// The whole token stream of a document.
pub open spec fn doc_tokens(d: DocData) -> Seq<Token> {
    tokens_upto(d, d.kinds.len() as int)
}

/// The two halves of the token stream meet at every position.
pub proof fn lemma_tokens_split(d: DocData, j: int)
    requires
        0 <= j <= d.kinds.len(),
    ensures
        tokens_upto(d, j) + tokens_from(d, j) == doc_tokens(d),
    decreases d.kinds.len() - j,
{
    if j == d.kinds.len() {
        assert(tokens_from(d, j) =~= Seq::<Token>::empty());
        assert(tokens_upto(d, j) + tokens_from(d, j) =~= tokens_upto(d, j));
    } else {
        lemma_tokens_split(d, j + 1);
        assert(tokens_upto(d, j + 1) == tokens_upto(d, j) + contribution(d, j));
        assert((tokens_upto(d, j) + contribution(d, j)) + tokens_from(d, j + 1) =~= tokens_upto(
            d,
            j,
        ) + (contribution(d, j) + tokens_from(d, j + 1)));
    }
}

/// Two documents that agree on their first `j` positions, on the kinds
/// registered for them, and on the store entries they reach, have the
/// same tokens up to `j`.
pub proof fn lemma_tokens_upto_stable(d1: DocData, d2: DocData, j: int)
    requires
        0 <= j <= d1.kinds.len(),
        d1.kinds.len() < u64::MAX,
        j <= d2.kinds.len(),
        d2.kinds.take(j) == d1.kinds.take(j),
        d1.infos.len() <= d2.infos.len(),
        forall|i: int| 0 <= i < d1.infos.len() ==> #[trigger] d2.infos[i] == d1.infos[i],
        forall|i: int| 0 <= i < j ==> (#[trigger] d1.kinds[i] as int) < d1.infos.len(),
        d1.strs.len() <= d2.strs.len(),
        forall|i: int| 0 <= i < d1.strs.len() ==> #[trigger] d2.strs[i] == d1.strs[i],
        d1.nums.len() <= d2.nums.len(),
        forall|i: int| 0 <= i < d1.nums.len() ==> #[trigger] d2.nums[i] == d1.nums[i],
        d1.bools.len() <= d2.bools.len(),
        forall|i: int| 0 <= i < d1.bools.len() ==> #[trigger] d2.bools[i] == d1.bools[i],
        rank_at(d1.kinds, STRING_OPEN_ID, j) <= d1.strs.len(),
        rank_at(d1.kinds, NUMBER_OPEN_ID, j) <= d1.nums.len(),
        rank_at(d1.kinds, BOOLEAN_OPEN_ID, j) <= d1.bools.len(),
    ensures
        tokens_upto(d2, j) == tokens_upto(d1, j),
    decreases j,
{
    if j > 0 {
        assert(d2.kinds.take(j - 1) =~= d1.kinds.take(j - 1));
        assert(d1.kinds[j - 1] == d2.kinds[j - 1]) by {
            assert(d1.kinds.take(j)[j - 1] == d1.kinds[j - 1]);
            assert(d2.kinds.take(j)[j - 1] == d2.kinds[j - 1]);
        }
        lemma_rank_mono_step(d1.kinds, STRING_OPEN_ID, j - 1);
        lemma_rank_mono_step(d1.kinds, NUMBER_OPEN_ID, j - 1);
        lemma_rank_mono_step(d1.kinds, BOOLEAN_OPEN_ID, j - 1);
        lemma_tokens_upto_stable(d1, d2, j - 1);
        assert(contribution(d2, j - 1) == contribution(d1, j - 1)) by {
            assert(rank_at(d2.kinds, STRING_OPEN_ID, j - 1) == rank_at(
                d1.kinds,
                STRING_OPEN_ID,
                j - 1,
            ));
            assert(rank_at(d2.kinds, NUMBER_OPEN_ID, j - 1) == rank_at(
                d1.kinds,
                NUMBER_OPEN_ID,
                j - 1,
            ));
            assert(rank_at(d2.kinds, BOOLEAN_OPEN_ID, j - 1) == rank_at(
                d1.kinds,
                BOOLEAN_OPEN_ID,
                j - 1,
            ));
            let k = d1.kinds[j - 1];
            if k == STRING_OPEN_ID {
                assert(rank_at(d1.kinds, STRING_OPEN_ID, j - 1) < d1.strs.len());
            } else if k == NUMBER_OPEN_ID {
                assert(rank_at(d1.kinds, NUMBER_OPEN_ID, j - 1) < d1.nums.len());
            } else if k == BOOLEAN_OPEN_ID {
                assert(rank_at(d1.kinds, BOOLEAN_OPEN_ID, j - 1) < d1.bools.len());
            }
        }
    }
}

/// The rank of a kind grows by one across a position of that kind and is
/// unchanged across any other.
pub proof fn lemma_rank_mono_step(kinds: Seq<u64>, k: u64, j: int)
    requires
        0 <= j < kinds.len(),
        kinds.len() < u64::MAX,
    ensures
        kinds[j] == k ==> rank_at(kinds, k, j + 1) == rank_at(kinds, k, j) + 1,
        kinds[j] != k ==> rank_at(kinds, k, j + 1) == rank_at(kinds, k, j),
{
    assert(kinds.take(j + 1) =~= kinds.take(j).push(kinds[j]));
    lemma_positions_of_push(kinds.take(j), kinds[j], k);
    assert(kinds.take(j).len() == j);
}

/// Ranks only grow along the positions.
pub proof fn lemma_rank_mono(kinds: Seq<u64>, k: u64, i: int, j: int)
    requires
        0 <= i <= j <= kinds.len(),
        kinds.len() < u64::MAX,
    ensures
        rank_at(kinds, k, i) <= rank_at(kinds, k, j),
    decreases j - i,
{
    if i < j {
        lemma_rank_mono_step(kinds, k, j - 1);
        lemma_rank_mono(kinds, k, i, j - 1);
    }
}

/// At a position of kind `k`, the rank lies below the total count of
/// that kind.
pub proof fn lemma_rank_bound(kinds: Seq<u64>, k: u64, j: int)
    requires
        0 <= j < kinds.len(),
        kinds[j] == k,
        kinds.len() < u64::MAX,
    ensures
        rank_at(kinds, k, j) < positions_of(kinds, k).len(),
        rank_at(kinds, k, kinds.len() as int) == positions_of(kinds, k).len(),
{
    lemma_rank_mono_step(kinds, k, j);
    lemma_rank_mono(kinds, k, j + 1, kinds.len() as int);
    assert(kinds.take(kinds.len() as int) =~= kinds);
}

/// The rank counted by the sparse index is the positional rank.
pub proof fn lemma_rank_is_count_below(kinds: Seq<u64>, k: u64, j: int)
    requires
        0 <= j <= kinds.len(),
        kinds.len() < u64::MAX,
    ensures
        count_below(positions_of(kinds, k), j as u64) == rank_at(kinds, k, j),
    decreases kinds.len(),
{
    lemma_positions_of_sorted(kinds, k);
    if j == kinds.len() {
        lemma_count_below_all(positions_of(kinds, k), j as u64);
        assert(kinds.take(j) =~= kinds);
    } else {
        let pre = kinds.drop_last();
        lemma_rank_is_count_below(pre, k, j);
        assert(pre.take(j) =~= kinds.take(j));
        let p = positions_of(kinds, k);
        let pp = positions_of(pre, k);
        if kinds.last() == k {
            assert(p == pp.push((kinds.len() - 1) as u64));
            lemma_count_below_step(p, j as u64);
            assert(p.drop_last() =~= pp);
        } else {
            assert(p == pp);
        }
    }
}


/// Mutable state while a document is parsed: the structural accumulator,
/// the parenthesis bits, and the three value stores.
pub struct DocBuilder {
    pub accum: UsageAccum,
    pub parens: vers_vecs::BitVec,
    pub text: TextUsageBuilder,
    pub numbers: Vec<String>,
    pub booleans: vers_vecs::BitVec,
}

impl DocBuilder {
    pub open spec fn data(&self) -> DocData {
        DocData {
            kinds: self.accum.kinds(),
            infos: self.accum.infos(),
            strs: self.text.strs(),
            nums: self.numbers.deep_view(),
            bools: bitvec_bits(self.booleans),
        }
    }

    pub open spec fn n(&self) -> int {
        self.accum.kinds().len() as int
    }

    pub open spec fn toks(&self) -> Seq<Token> {
        doc_tokens(self.data())
    }

    pub open spec fn wf(&self) -> bool {
        &&& self.accum.wf()
        &&& self.text.wf()
        &&& bitvec_bits(self.parens).len() == self.accum.kinds().len()
        &&& forall|i: int|
            0 <= i < self.n() ==> (#[trigger] self.accum.kinds()[i] as int)
                < self.accum.infos().len()
        &&& forall|i: int|
            0 <= i < self.n() ==> bitvec_bits(self.parens)[i] == self.accum.infos()[
                self.accum.kinds()[i] as int
            ].open
        &&& positions_of(self.accum.kinds(), STRING_OPEN_ID).len() == self.text.strs().len()
        &&& positions_of(self.accum.kinds(), NUMBER_OPEN_ID).len() == self.numbers.deep_view().len()
        &&& positions_of(self.accum.kinds(), BOOLEAN_OPEN_ID).len() == bitvec_bits(
            self.booleans,
        ).len()
    }

    pub fn new(bitpacked: bool, block_size: usize, cache_capacity: usize) -> (r: DocBuilder)
        requires
            block_size < usize::MAX,
        ensures
            r.wf(),
            r.n() == 0,
            r.toks() == Seq::<Token>::empty(),
            r.text.cache_capacity == cache_capacity,
    {
        let r = DocBuilder {
            accum: UsageAccum::new(bitpacked),
            parens: bitvec_new(),
            text: TextUsageBuilder::new(block_size, cache_capacity),
            numbers: Vec::new(),
            booleans: bitvec_new(),
        };
        proof {
            assert(positions_of(r.accum.kinds(), STRING_OPEN_ID) =~= Seq::<u64>::empty());
            assert(positions_of(r.accum.kinds(), NUMBER_OPEN_ID) =~= Seq::<u64>::empty());
            assert(positions_of(r.accum.kinds(), BOOLEAN_OPEN_ID) =~= Seq::<u64>::empty());
            assert(r.numbers.deep_view() =~= Seq::<Seq<char>>::empty());
        }
        r
    }

    /// The facts that one or two appended positions leave the earlier
    /// tokens unchanged.
    proof fn stable_prefix(pre: &DocBuilder, post: &DocBuilder)
        requires
            pre.wf(),
            pre.n() + 2 < u32::MAX,
            pre.n() <= post.accum.kinds().len() <= pre.n() + 2,
            post.accum.kinds().take(pre.n()) == pre.accum.kinds(),
            pre.accum.infos().len() <= post.accum.infos().len(),
            forall|i: int|
                0 <= i < pre.accum.infos().len() ==> #[trigger] post.accum.infos()[i]
                    == pre.accum.infos()[i],
            pre.text.strs().len() <= post.text.strs().len(),
            forall|i: int|
                0 <= i < pre.text.strs().len() ==> #[trigger] post.text.strs()[i]
                    == pre.text.strs()[i],
            pre.numbers.deep_view().len() <= post.numbers.deep_view().len(),
            forall|i: int|
                0 <= i < pre.numbers.deep_view().len() ==> #[trigger] post.numbers.deep_view()[i]
                    == pre.numbers.deep_view()[i],
            bitvec_bits(pre.booleans).len() <= bitvec_bits(post.booleans).len(),
            forall|i: int|
                0 <= i < bitvec_bits(pre.booleans).len() ==> #[trigger] bitvec_bits(
                    post.booleans,
                )[i] == bitvec_bits(pre.booleans)[i],
        ensures
            tokens_upto(post.data(), pre.n()) == pre.toks(),
    {
        let n0 = pre.n();
        assert(pre.accum.kinds().take(n0) =~= pre.accum.kinds());
        assert(rank_at(pre.accum.kinds(), STRING_OPEN_ID, n0) == pre.text.strs().len() as int);
        assert(rank_at(pre.accum.kinds(), NUMBER_OPEN_ID, n0)
            == pre.numbers.deep_view().len() as int);
        assert(rank_at(pre.accum.kinds(), BOOLEAN_OPEN_ID, n0) == bitvec_bits(
            pre.booleans,
        ).len() as int);
        lemma_tokens_upto_stable(pre.data(), post.data(), n0);
    }

    /// The count bookkeeping after one kind is appended.
    proof fn counts_after_push(kinds0: Seq<u64>, id: u64)
        requires
            kinds0.len() < u64::MAX,
        ensures
            positions_of(kinds0.push(id), STRING_OPEN_ID).len() == positions_of(
                kinds0,
                STRING_OPEN_ID,
            ).len() + if id == STRING_OPEN_ID {
                1int
            } else {
                0int
            },
            positions_of(kinds0.push(id), NUMBER_OPEN_ID).len() == positions_of(
                kinds0,
                NUMBER_OPEN_ID,
            ).len() + if id == NUMBER_OPEN_ID {
                1int
            } else {
                0int
            },
            positions_of(kinds0.push(id), BOOLEAN_OPEN_ID).len() == positions_of(
                kinds0,
                BOOLEAN_OPEN_ID,
            ).len() + if id == BOOLEAN_OPEN_ID {
                1int
            } else {
                0int
            },
    {
        lemma_positions_of_push(kinds0, id, STRING_OPEN_ID);
        lemma_positions_of_push(kinds0, id, NUMBER_OPEN_ID);
        lemma_positions_of_push(kinds0, id, BOOLEAN_OPEN_ID);
    }

    /// Interns one of the twelve fixed kinds and proves its identifier.
    fn register_fixed(&mut self, info: NodeInfo, expect: u64) -> (r: NodeInfoId)
        requires
            old(self).wf(),
            expect < crate::kinds::FIXED_KIND_COUNT,
            info.view() == crate::kinds::fixed_info(expect),
        ensures
            final(self).wf(),
            final(self).accum.kinds() == old(self).accum.kinds(),
            final(self).accum.infos() == old(self).accum.infos(),
            final(self).parens == old(self).parens,
            final(self).text == old(self).text,
            final(self).numbers == old(self).numbers,
            final(self).booleans == old(self).booleans,
            r.0 == expect,
    {
        proof {
            assert(self.accum.lookup().wf());
            assert(self.accum.infos()[expect as int] == crate::kinds::fixed_info(expect));
            assert(self.accum.infos().contains(info.view())) by {
                assert(self.accum.infos()[expect as int] == info.view());
            }
        }
        let id = self.accum.register(info);
        proof {
            crate::registry::lemma_register_deterministic(
                &self.accum.lookup(),
                id.0 as int,
                expect as int,
            );
        }
        id
    }

    /// Appends one position of an already interned kind.
    fn push_pos(&mut self, id: NodeInfoId)
        requires
            old(self).accum.wf(),
            bitvec_bits(old(self).parens).len() == old(self).accum.kinds().len(),
            forall|i: int|
                0 <= i < old(self).n() ==> (#[trigger] old(self).accum.kinds()[i] as int) < old(
                    self,
                ).accum.infos().len(),
            forall|i: int|
                0 <= i < old(self).n() ==> bitvec_bits(old(self).parens)[i]
                    == old(self).accum.infos()[old(self).accum.kinds()[i] as int].open,
            id.0 < old(self).accum.infos().len(),
            old(self).n() + 1 < u32::MAX,
        ensures
            final(self).accum.kinds() == old(self).accum.kinds().push(id.0),
            final(self).accum.infos() == old(self).accum.infos(),
            final(self).accum.wf(),
            final(self).text == old(self).text,
            final(self).numbers == old(self).numbers,
            final(self).booleans == old(self).booleans,
            bitvec_bits(final(self).parens) == bitvec_bits(old(self).parens).push(
                old(self).accum.infos()[id.0 as int].open,
            ),
            forall|i: int|
                0 <= i < final(self).n() ==> (#[trigger] final(self).accum.kinds()[i] as int)
                    < final(self).accum.infos().len(),
            forall|i: int|
                0 <= i < final(self).n() ==> bitvec_bits(final(self).parens)[i]
                    == final(self).accum.infos()[final(self).accum.kinds()[i] as int].open,
    {
        let is_open = {
            let info = {
                let l = match &self.accum {
                    UsageAccum::Roaring(b) => &b.node_lookup,
                    UsageAccum::Bitpacked(b) => &b.node_lookup,
                };
                l.by_node_info_id(id)
            };
            info.is_open_tag
        };
        self.accum.append(id);
        bitvec_append(&mut self.parens, is_open);
        proof {
            assert(bitvec_bits(self.parens) =~= bitvec_bits(old(self).parens).push(
                old(self).accum.infos()[id.0 as int].open,
            ));
        }
    }
}


impl DocBuilder {
    /// The shape every builder step keeps and reports: the registry only
    /// grows, the stores only grow, and the new tokens follow the old.
    pub open spec fn extends(&self, pre: &DocBuilder) -> bool {
        &&& pre.accum.infos().len() <= self.accum.infos().len()
        &&& forall|i: int|
            0 <= i < pre.accum.infos().len() ==> #[trigger] self.accum.infos()[i]
                == pre.accum.infos()[i]
        &&& pre.text.strs().len() <= self.text.strs().len()
        &&& forall|i: int|
            0 <= i < pre.text.strs().len() ==> #[trigger] self.text.strs()[i]
                == pre.text.strs()[i]
        &&& pre.n() <= self.n()
        &&& forall|i: int|
            0 <= i < pre.n() ==> #[trigger] self.accum.kinds()[i] == pre.accum.kinds()[i]
        &&& self.text.block_size == pre.text.block_size
        &&& self.text.cache_capacity == pre.text.cache_capacity
    }

    pub fn begin_array(&mut self)
        requires
            old(self).wf(),
            old(self).n() + 2 < u32::MAX,
        ensures
            final(self).wf(),
            final(self).extends(old(self)),
            final(self).n() == old(self).n() + 1,
            final(self).toks() == old(self).toks() + seq![Token::BeginArray],
            final(self).accum.kinds() == old(self).accum.kinds().push(ARRAY_OPEN_ID),
            final(self).accum.kinds()[old(self).n()] == ARRAY_OPEN_ID,
            final(self).text == old(self).text,
        {
        let id = self.register_fixed(NodeInfo::open(NodeType::Array), ARRAY_OPEN_ID);
        let ghost pre = *self;
        self.push_pos(id);
        proof {
            Self::counts_after_push(pre.accum.kinds(), id.0);
            assert(self.accum.kinds().take(pre.n()) =~= pre.accum.kinds());
            Self::stable_prefix(&pre, self);
            assert(contribution(self.data(), pre.n()) =~= seq![Token::BeginArray]);
            assert(self.toks() == tokens_upto(self.data(), pre.n()) + contribution(
                self.data(),
                pre.n(),
            ));
        }
    }

    pub fn end_array(&mut self)
        requires
            old(self).wf(),
            old(self).n() + 2 < u32::MAX,
        ensures
            final(self).wf(),
            final(self).extends(old(self)),
            final(self).n() == old(self).n() + 1,
            final(self).toks() == old(self).toks() + seq![Token::EndArray],
            final(self).accum.kinds() == old(self).accum.kinds().push(ARRAY_CLOSE_ID),
            final(self).text == old(self).text,
    {
        let id = self.register_fixed(NodeInfo::close(NodeType::Array), ARRAY_CLOSE_ID);
        let ghost pre = *self;
        self.push_pos(id);
        proof {
            Self::counts_after_push(pre.accum.kinds(), id.0);
            assert(self.accum.kinds().take(pre.n()) =~= pre.accum.kinds());
            Self::stable_prefix(&pre, self);
            assert(contribution(self.data(), pre.n()) =~= seq![Token::EndArray]);
            assert(self.toks() == tokens_upto(self.data(), pre.n()) + contribution(
                self.data(),
                pre.n(),
            ));
        }
    }

    pub fn begin_object(&mut self)
        requires
            old(self).wf(),
            old(self).n() + 2 < u32::MAX,
        ensures
            final(self).wf(),
            final(self).extends(old(self)),
            final(self).n() == old(self).n() + 1,
            final(self).toks() == old(self).toks() + seq![Token::BeginObject],
            final(self).accum.kinds() == old(self).accum.kinds().push(OBJECT_OPEN_ID),
            final(self).accum.kinds()[old(self).n()] == OBJECT_OPEN_ID,
            final(self).text == old(self).text,
    {
        let id = self.register_fixed(NodeInfo::open(NodeType::Object), OBJECT_OPEN_ID);
        let ghost pre = *self;
        self.push_pos(id);
        proof {
            Self::counts_after_push(pre.accum.kinds(), id.0);
            assert(self.accum.kinds().take(pre.n()) =~= pre.accum.kinds());
            Self::stable_prefix(&pre, self);
            assert(contribution(self.data(), pre.n()) =~= seq![Token::BeginObject]);
            assert(self.toks() == tokens_upto(self.data(), pre.n()) + contribution(
                self.data(),
                pre.n(),
            ));
        }
    }

    pub fn end_object(&mut self)
        requires
            old(self).wf(),
            old(self).n() + 2 < u32::MAX,
        ensures
            final(self).wf(),
            final(self).extends(old(self)),
            final(self).n() == old(self).n() + 1,
            final(self).toks() == old(self).toks() + seq![Token::EndObject],
            final(self).accum.kinds() == old(self).accum.kinds().push(OBJECT_CLOSE_ID),
            final(self).text == old(self).text,
    {
        let id = self.register_fixed(NodeInfo::close(NodeType::Object), OBJECT_CLOSE_ID);
        let ghost pre = *self;
        self.push_pos(id);
        proof {
            Self::counts_after_push(pre.accum.kinds(), id.0);
            assert(self.accum.kinds().take(pre.n()) =~= pre.accum.kinds());
            Self::stable_prefix(&pre, self);
            assert(contribution(self.data(), pre.n()) =~= seq![Token::EndObject]);
            assert(self.toks() == tokens_upto(self.data(), pre.n()) + contribution(
                self.data(),
                pre.n(),
            ));
        }
    }

    /// Appends one leaf: an open position, the store entry, and the
    /// closing position.
    fn leaf(&mut self, open_info: NodeInfo, close_info: NodeInfo, open_id: u64, tok: Ghost<Token>)
        requires
            old(self).n() + 4 < u32::MAX,
            open_id == STRING_OPEN_ID || open_id == NUMBER_OPEN_ID || open_id == BOOLEAN_OPEN_ID
                || open_id == NULL_OPEN_ID,
            open_info.view() == crate::kinds::fixed_info(open_id),
            close_info.view() == crate::kinds::fixed_info((open_id + 1) as u64),
            open_id == STRING_OPEN_ID ==> old(self).text.strs().len() == positions_of(
                old(self).accum.kinds(),
                STRING_OPEN_ID,
            ).len() + 1 && tok@ == Token::Str(old(self).text.strs().last()),
            open_id != STRING_OPEN_ID ==> old(self).text.strs().len() == positions_of(
                old(self).accum.kinds(),
                STRING_OPEN_ID,
            ).len() && old(self).text.wf(),
            open_id == NUMBER_OPEN_ID ==> old(self).numbers.deep_view().len() == positions_of(
                old(self).accum.kinds(),
                NUMBER_OPEN_ID,
            ).len() + 1 && tok@ == Token::Num(old(self).numbers.deep_view().last()),
            open_id != NUMBER_OPEN_ID ==> old(self).numbers.deep_view().len() == positions_of(
                old(self).accum.kinds(),
                NUMBER_OPEN_ID,
            ).len(),
            open_id == BOOLEAN_OPEN_ID ==> bitvec_bits(old(self).booleans).len() == positions_of(
                old(self).accum.kinds(),
                BOOLEAN_OPEN_ID,
            ).len() + 1 && tok@ == Token::Bool(bitvec_bits(old(self).booleans).last()),
            open_id != BOOLEAN_OPEN_ID ==> bitvec_bits(old(self).booleans).len() == positions_of(
                old(self).accum.kinds(),
                BOOLEAN_OPEN_ID,
            ).len(),
            open_id == NULL_OPEN_ID ==> tok@ == Token::Null,
            old(self).accum.wf(),
            old(self).text.wf(),
            bitvec_bits(old(self).parens).len() == old(self).accum.kinds().len(),
            forall|i: int|
                0 <= i < old(self).n() ==> (#[trigger] old(self).accum.kinds()[i] as int) < old(
                    self,
                ).accum.infos().len(),
            forall|i: int|
                0 <= i < old(self).n() ==> bitvec_bits(old(self).parens)[i]
                    == old(self).accum.infos()[old(self).accum.kinds()[i] as int].open,
        ensures
            final(self).wf(),
            final(self).n() == old(self).n() + 2,
            final(self).accum.infos() == old(self).accum.infos(),
            final(self).text == old(self).text,
            final(self).numbers == old(self).numbers,
            final(self).booleans == old(self).booleans,
            final(self).toks() == tokens_upto(old(self).data(), old(self).n()) + seq![tok@],
            final(self).accum.kinds() == old(self).accum.kinds().push(open_id).push(
                (open_id + 1) as u64,
            ),
            final(self).accum.kinds()[old(self).n()] == open_id,
    {
        let oid = self.register_fixed2(open_info, open_id);
        let cid = self.register_fixed2(close_info, open_id + 1);
        let ghost pre = *self;
        self.push_pos(oid);
        let ghost mid = *self;
        self.push_pos(cid);
        proof {
            Self::counts_after_push(pre.accum.kinds(), oid.0);
            Self::counts_after_push(mid.accum.kinds(), cid.0);
            assert(self.accum.kinds().take(pre.n()) =~= pre.accum.kinds());
            assert(pre.accum.kinds().take(pre.n()) =~= pre.accum.kinds());
            lemma_rank_mono_step(self.accum.kinds(), STRING_OPEN_ID, pre.n());
            lemma_rank_mono_step(self.accum.kinds(), NUMBER_OPEN_ID, pre.n());
            lemma_rank_mono_step(self.accum.kinds(), BOOLEAN_OPEN_ID, pre.n());
            assert(rank_at(pre.accum.kinds(), STRING_OPEN_ID, pre.n()) <= pre.text.strs().len());
            assert(rank_at(pre.accum.kinds(), NUMBER_OPEN_ID, pre.n())
                <= pre.numbers.deep_view().len());
            assert(rank_at(pre.accum.kinds(), BOOLEAN_OPEN_ID, pre.n()) <= bitvec_bits(
                pre.booleans,
            ).len());
            Self::stable_prefix_leaf(&pre, self, open_id);
            assert(contribution(self.data(), pre.n()) =~= seq![tok@]) by {
                assert(rank_at(self.accum.kinds(), open_id, pre.n()) == positions_of(
                    pre.accum.kinds(),
                    open_id,
                ).len());
            }
            assert(contribution(self.data(), pre.n() + 1) =~= Seq::<Token>::empty());
            assert(self.toks() == tokens_upto(self.data(), pre.n() + 1) + contribution(
                self.data(),
                pre.n() + 1,
            ));
            assert(tokens_upto(self.data(), pre.n() + 1) == tokens_upto(self.data(), pre.n())
                + contribution(self.data(), pre.n()));
            assert(self.toks() =~= tokens_upto(self.data(), pre.n()) + seq![tok@]);
        }
    }

    /// Stability for the leaf step, where one store already grew by the
    /// leaf's own entry.
    proof fn stable_prefix_leaf(pre: &DocBuilder, post: &DocBuilder, open_id: u64)
        requires
            pre.accum.wf(),
            pre.text.wf(),
            pre.n() + 2 < u32::MAX,
            pre.n() <= post.accum.kinds().len() <= pre.n() + 2,
            post.accum.kinds().take(pre.n()) == pre.accum.kinds(),
            pre.accum.infos().len() <= post.accum.infos().len(),
            forall|i: int|
                0 <= i < pre.accum.infos().len() ==> #[trigger] post.accum.infos()[i]
                    == pre.accum.infos()[i],
            forall|i: int|
                0 <= i < pre.n() ==> (#[trigger] pre.accum.kinds()[i] as int)
                    < pre.accum.infos().len(),
            post.text == pre.text,
            post.numbers == pre.numbers,
            post.booleans == pre.booleans,
            rank_at(pre.accum.kinds(), STRING_OPEN_ID, pre.n()) <= pre.text.strs().len(),
            rank_at(pre.accum.kinds(), NUMBER_OPEN_ID, pre.n()) <= pre.numbers.deep_view().len(),
            rank_at(pre.accum.kinds(), BOOLEAN_OPEN_ID, pre.n()) <= bitvec_bits(
                pre.booleans,
            ).len(),
        ensures
            tokens_upto(post.data(), pre.n()) == tokens_upto(pre.data(), pre.n()),
    {
        assert(pre.accum.kinds().take(pre.n()) =~= pre.accum.kinds());
        lemma_tokens_upto_stable(pre.data(), post.data(), pre.n());
    }

    /// Interns one of the twelve fixed kinds; shared by the leaf path,
    /// which cannot assume the full builder shape.
    fn register_fixed2(&mut self, info: NodeInfo, expect: u64) -> (r: NodeInfoId)
        requires
            old(self).accum.wf(),
            expect < crate::kinds::FIXED_KIND_COUNT,
            info.view() == crate::kinds::fixed_info(expect),
        ensures
            final(self).accum.wf(),
            final(self).accum.kinds() == old(self).accum.kinds(),
            final(self).accum.infos() == old(self).accum.infos(),
            final(self).parens == old(self).parens,
            final(self).text == old(self).text,
            final(self).numbers == old(self).numbers,
            final(self).booleans == old(self).booleans,
            r.0 == expect,
    {
        proof {
            assert(self.accum.lookup().wf());
            assert(self.accum.infos()[expect as int] == crate::kinds::fixed_info(expect));
            assert(self.accum.infos().contains(info.view())) by {
                assert(self.accum.infos()[expect as int] == info.view());
            }
        }
        let id = self.accum.register(info);
        proof {
            crate::registry::lemma_register_deterministic(
                &self.accum.lookup(),
                id.0 as int,
                expect as int,
            );
        }
        id
    }

    pub fn string_value(&mut self, text: &str)
        requires
            old(self).wf(),
            old(self).n() + 4 < u32::MAX,
            vstd::utf8::encode_utf8(text@).len() < usize::MAX,
        ensures
            final(self).wf(),
            final(self).extends(old(self)),
            final(self).n() == old(self).n() + 2,
            final(self).toks() == old(self).toks() + seq![Token::Str(text@)],
            final(self).text.strs() == old(self).text.strs().push(text@),
            final(self).accum.kinds() == old(self).accum.kinds().push(STRING_OPEN_ID).push(
                STRING_CLOSE_ID,
            ),
            final(self).accum.kinds()[old(self).n()] == STRING_OPEN_ID,
    {
        let ghost pre = *self;
        proof {
            lemma_positions_of_sorted(self.accum.kinds(), STRING_OPEN_ID);
            assert(self.text.strs().len() < usize::MAX);
        }
        self.text.add_string(text);
        let ghost mid = *self;
        self.leaf(
            NodeInfo::open(NodeType::String),
            NodeInfo::close(NodeType::String),
            STRING_OPEN_ID,
            Ghost(Token::Str(text@)),
        );
        proof {
            assert(pre.accum.kinds().take(pre.n()) =~= pre.accum.kinds());
            lemma_tokens_upto_stable(pre.data(), mid.data(), pre.n());
            assert(tokens_upto(pre.data(), pre.n()) == pre.toks());
        }
    }

    pub fn number_value(&mut self, numeral: String)
        requires
            old(self).wf(),
            old(self).n() + 4 < u32::MAX,
        ensures
            final(self).wf(),
            final(self).extends(old(self)),
            final(self).n() == old(self).n() + 2,
            final(self).toks() == old(self).toks() + seq![Token::Num(numeral@)],
            final(self).text == old(self).text,
            final(self).accum.kinds() == old(self).accum.kinds().push(NUMBER_OPEN_ID).push(
                NUMBER_CLOSE_ID,
            ),
            final(self).accum.kinds()[old(self).n()] == NUMBER_OPEN_ID,
    {
        let ghost pre = *self;
        let ghost nv = numeral@;
        proof {
            lemma_positions_of_sorted(self.accum.kinds(), NUMBER_OPEN_ID);
        }
        self.numbers.push(numeral);
        proof {
            assert(self.numbers.deep_view() =~= pre.numbers.deep_view().push(nv));
        }
        let ghost mid = *self;
        self.leaf(
            NodeInfo::open(NodeType::Number),
            NodeInfo::close(NodeType::Number),
            NUMBER_OPEN_ID,
            Ghost(Token::Num(nv)),
        );
        proof {
            assert(pre.accum.kinds().take(pre.n()) =~= pre.accum.kinds());
            lemma_tokens_upto_stable(pre.data(), mid.data(), pre.n());
            assert(tokens_upto(pre.data(), pre.n()) == pre.toks());
        }
    }

    pub fn bool_value(&mut self, value: bool)
        requires
            old(self).wf(),
            old(self).n() + 4 < u32::MAX,
        ensures
            final(self).wf(),
            final(self).extends(old(self)),
            final(self).n() == old(self).n() + 2,
            final(self).toks() == old(self).toks() + seq![Token::Bool(value)],
            final(self).text == old(self).text,
            final(self).accum.kinds() == old(self).accum.kinds().push(BOOLEAN_OPEN_ID).push(
                BOOLEAN_CLOSE_ID,
            ),
            final(self).accum.kinds()[old(self).n()] == BOOLEAN_OPEN_ID,
    {
        let ghost pre = *self;
        proof {
            lemma_positions_of_sorted(self.accum.kinds(), BOOLEAN_OPEN_ID);
        }
        bitvec_append(&mut self.booleans, value);
        let ghost mid = *self;
        self.leaf(
            NodeInfo::open(NodeType::Boolean),
            NodeInfo::close(NodeType::Boolean),
            BOOLEAN_OPEN_ID,
            Ghost(Token::Bool(value)),
        );
        proof {
            assert(pre.accum.kinds().take(pre.n()) =~= pre.accum.kinds());
            lemma_tokens_upto_stable(pre.data(), mid.data(), pre.n());
            assert(tokens_upto(pre.data(), pre.n()) == pre.toks());
        }
    }

    pub fn null_value(&mut self)
        requires
            old(self).wf(),
            old(self).n() + 4 < u32::MAX,
        ensures
            final(self).wf(),
            final(self).extends(old(self)),
            final(self).n() == old(self).n() + 2,
            final(self).toks() == old(self).toks() + seq![Token::Null],
            final(self).text == old(self).text,
            final(self).accum.kinds() == old(self).accum.kinds().push(NULL_OPEN_ID).push(
                NULL_CLOSE_ID,
            ),
            final(self).accum.kinds()[old(self).n()] == NULL_OPEN_ID,
    {
        let ghost pre = *self;
        self.leaf(
            NodeInfo::open(NodeType::Null),
            NodeInfo::close(NodeType::Null),
            NULL_OPEN_ID,
            Ghost(Token::Null),
        );
        proof {
            assert(pre.accum.kinds().take(pre.n()) =~= pre.accum.kinds());
            assert(tokens_upto(pre.data(), pre.n()) == pre.toks());
        }
    }

    /// Opens an object member: interns the field's open and close kinds
    /// and appends the open position. Returns the close identifier for
    /// `end_field`.
    pub fn begin_field(&mut self, name: &str) -> (r: NodeInfoId)
        requires
            old(self).wf(),
            old(self).n() + 2 < u32::MAX,
        ensures
            final(self).wf(),
            final(self).extends(old(self)),
            final(self).n() == old(self).n() + 1,
            final(self).toks() == old(self).toks() + seq![Token::Name(name@)],
            final(self).text == old(self).text,
            r.0 < final(self).accum.infos().len(),
            final(self).accum.infos()[r.0 as int] == (InfoV {
                kind: KindV::Field(name@),
                open: false,
            }),
            final(self).accum.infos()[final(self).accum.kinds()[old(self).n()] as int] == (InfoV {
                kind: KindV::Field(name@),
                open: true,
            }),
            (final(self).accum.kinds()[old(self).n()] as int) < final(self).accum.infos().len(),
    {
        let ids = self.accum.register_field_ids(name);
        let ghost pre = *self;
        proof {
            assert(old(self).accum.kinds().take(old(self).n()) =~= old(self).accum.kinds());
            lemma_tokens_upto_stable(old(self).data(), pre.data(), old(self).n());
            assert(tokens_upto(pre.data(), pre.n()) == old(self).toks());
            assert(pre.accum.infos()[ids.0.0 as int].open);
            assert(ids.0.0 >= crate::kinds::FIXED_KIND_COUNT) by {
                if ids.0.0 < crate::kinds::FIXED_KIND_COUNT {
                    assert(pre.accum.infos()[ids.0.0 as int] == crate::kinds::fixed_info(ids.0.0));
                }
            }
        }
        self.push_pos(ids.0);
        proof {
            Self::counts_after_push(pre.accum.kinds(), ids.0.0);
            assert(self.accum.kinds().take(pre.n()) =~= pre.accum.kinds());
            Self::stable_prefix(&pre, self);
            assert(contribution(self.data(), pre.n()) =~= seq![Token::Name(name@)]) by {
                assert(self.data().infos[ids.0.0 as int] == (InfoV {
                    kind: KindV::Field(name@),
                    open: true,
                }));
            }
            assert(self.toks() == tokens_upto(self.data(), pre.n()) + contribution(
                self.data(),
                pre.n(),
            ));
        }
        ids.1
    }

    /// Closes an object member opened by `begin_field`.
    pub fn end_field(&mut self, close_id: NodeInfoId)
        requires
            old(self).wf(),
            old(self).n() + 2 < u32::MAX,
            close_id.0 < old(self).accum.infos().len(),
            old(self).accum.infos()[close_id.0 as int] matches InfoV { kind: KindV::Field(_), open: false },
        ensures
            final(self).wf(),
            final(self).extends(old(self)),
            final(self).n() == old(self).n() + 1,
            final(self).toks() == old(self).toks(),
            final(self).text == old(self).text,
            !final(self).accum.infos()[final(self).accum.kinds()[old(self).n()] as int].open,
            (final(self).accum.kinds()[old(self).n()] as int) < final(self).accum.infos().len(),
            final(self).accum.kinds() == old(self).accum.kinds().push(close_id.0),
    {
        let ghost pre = *self;
        proof {
            assert(close_id.0 >= crate::kinds::FIXED_KIND_COUNT) by {
                if close_id.0 < crate::kinds::FIXED_KIND_COUNT {
                    assert(pre.accum.infos()[close_id.0 as int] == crate::kinds::fixed_info(
                        close_id.0,
                    ));
                }
            }
        }
        self.push_pos(close_id);
        proof {
            Self::counts_after_push(pre.accum.kinds(), close_id.0);
            assert(self.accum.kinds().take(pre.n()) =~= pre.accum.kinds());
            Self::stable_prefix(&pre, self);
            assert(contribution(self.data(), pre.n()) =~= Seq::<Token>::empty());
            assert(self.toks() == tokens_upto(self.data(), pre.n()) + contribution(
                self.data(),
                pre.n(),
            ));
            assert(self.toks() =~= pre.toks());
        }
    }
}


/// One object member — its field-open position, a complete value, and
/// its field-close position — extends the members' bit invariants.
#[verifier::rlimit(60)]
proof fn lemma_object_member_step(
    b_loop: &DocBuilder,
    b_i: &DocBuilder,
    b_j: &DocBuilder,
    b2: &DocBuilder,
    n0: int,
    name: Seq<char>,
    close_kind: u64,
)
    requires
        b_loop.wf(),
        b_i.wf(),
        b_j.wf(),
        b2.wf(),
        b_i.extends(b_loop),
        b_j.extends(b_i),
        b2.extends(b_j),
        b_i.n() == b_loop.n() + 1,
        b2.n() == b_j.n() + 1,
        b_j.n() >= b_i.n(),
        0 <= n0 < b_loop.n(),
        balanced_bits(bits_of(b_loop.data()).subrange(n0 + 1, b_loop.n())),
        paired_range(b_loop.data(), n0 + 1, b_loop.n()),
        b_i.accum.infos()[b_i.accum.kinds()[b_loop.n()] as int] == (InfoV {
            kind: KindV::Field(name),
            open: true,
        }),
        (b_i.accum.kinds()[b_loop.n()] as int) < b_i.accum.infos().len(),
        subtree_span(bits_of(b_j.data()).subrange(b_i.n(), b_j.n())),
        paired_range(b_j.data(), b_i.n(), b_j.n()),
        b2.accum.kinds() == b_j.accum.kinds().push(close_kind),
        (close_kind as int) < b2.accum.infos().len(),
        b2.accum.infos()[close_kind as int] == (InfoV { kind: KindV::Field(name), open: false }),
    ensures
        balanced_bits(bits_of(b2.data()).subrange(n0 + 1, b2.n())),
        paired_range(b2.data(), n0 + 1, b2.n()),
{
    lemma_extends_trans(b_i, b_j, b2);
    lemma_extends_trans(b_loop, b_i, b2);
    lemma_bits_stable(b_j.data(), b2.data(), b_j.n());
    lemma_bits_stable(b_loop.data(), b2.data(), b_loop.n());
    let value_seg = bits_of(b2.data()).subrange(b_i.n(), b_j.n());
    assert(value_seg =~= bits_of(b_j.data()).subrange(b_i.n(), b_j.n()));
    assert(subtree_span(value_seg));
    assert(bits_of(b2.data())[b_loop.n()]) by {
        assert(b2.accum.kinds()[b_loop.n()] == b_i.accum.kinds()[b_loop.n()]);
        assert(b2.accum.infos()[b_i.accum.kinds()[b_loop.n()] as int] == b_i.accum.infos()[
            b_i.accum.kinds()[b_loop.n()] as int
        ]);
    }
    assert(!bits_of(b2.data())[b_j.n()]);
    let member_bits = bits_of(b2.data()).subrange(b_loop.n(), b2.n());
    assert(member_bits =~= seq![true] + value_seg + seq![false]);
    lemma_subtree_balanced(value_seg);
    lemma_wrap_span(value_seg);
    let members_old = bits_of(b2.data()).subrange(n0 + 1, b_loop.n());
    assert(members_old =~= bits_of(b_loop.data()).subrange(n0 + 1, b_loop.n()));
    lemma_balanced_extend(members_old, member_bits);
    assert(bits_of(b2.data()).subrange(n0 + 1, b2.n()) =~= members_old + member_bits);
    lemma_paired_stable(b_j.data(), b2.data(), b_i.n(), b_j.n());
    assert(subtree_span(bits_of(b2.data()).subrange(b_loop.n(), b2.n())));
    assert(b2.accum.kinds()[b2.n() - 1] == close_kind);
    assert(b2.accum.kinds()[b_loop.n()] == b_i.accum.kinds()[b_loop.n()]);
    assert(b2.accum.infos()[b2.accum.kinds()[b_loop.n()] as int] == (InfoV {
        kind: KindV::Field(name),
        open: true,
    }));
    lemma_paired_wrap(b2.data(), b_loop.n(), b2.n());
    lemma_paired_stable(b_loop.data(), b2.data(), n0 + 1, b_loop.n());
    lemma_paired_union(b2.data(), n0 + 1, b_loop.n(), b2.n());
}

/// The bits a just-appended leaf contributes form one subtree.
proof fn lemma_leaf_bits(b2: &DocBuilder, n0: int, open_id: u64)
    requires
        b2.wf(),
        0 <= n0,
        b2.accum.kinds().len() == n0 + 2,
        open_id == STRING_OPEN_ID || open_id == NUMBER_OPEN_ID || open_id == BOOLEAN_OPEN_ID
            || open_id == NULL_OPEN_ID,
        b2.accum.kinds()[n0] == open_id,
        b2.accum.kinds()[n0 + 1] == open_id + 1,
    ensures
        subtree_span(bits_of(b2.data()).subrange(n0, n0 + 2)),
        paired_range(b2.data(), n0, n0 + 2),
{
    assert(b2.accum.lookup().wf());
    assert(b2.accum.infos()[open_id as int] == crate::kinds::fixed_info(open_id));
    assert(b2.accum.infos()[open_id + 1] == crate::kinds::fixed_info((open_id + 1) as u64));
    let seg = bits_of(b2.data()).subrange(n0, n0 + 2);
    assert(seg[0] == bits_of(b2.data())[n0]);
    assert(seg[1] == bits_of(b2.data())[n0 + 1]);
    assert(crate::kinds::fixed_info(open_id).open);
    assert(!crate::kinds::fixed_info((open_id + 1) as u64).open);
    lemma_leaf_span(seg);
    assert(crate::kinds::fixed_info((open_id + 1) as u64).kind == crate::kinds::fixed_info(
        open_id,
    ).kind) by {
        assert((open_id + 1) / 2 == open_id / 2);
    }
    assert(paired_range(b2.data(), n0 + 1, n0 + 1));
    lemma_paired_wrap(b2.data(), n0, n0 + 2);
}

/// Kind identifiers that may stand at the opening position of a value.
pub open spec fn is_value_open_id(k: u64) -> bool {
    k == OBJECT_OPEN_ID || k == ARRAY_OPEN_ID || k == STRING_OPEN_ID || k == NUMBER_OPEN_ID || k
        == BOOLEAN_OPEN_ID || k == NULL_OPEN_ID
}

/// Reads one complete JSON value from the tokenizer into the builder.
/// On success the consumed tokens form one complete value, they are
/// exactly the tokens the built positions stand for, and the tokenizer
/// stands right after the value.
fn parse_item(
    tok: &mut Tokenizer,
    b: &mut DocBuilder,
    Ghost(m): Ghost<MState>,
    Ghost(fuel): Ghost<int>,
) -> (r: Result<(), JsonParseError>)
    requires
        old(b).wf(),
        swf(m, tok_remaining(old(tok))),
        crate::tokens::can_value(m),
        tok_stack(old(tok)) == m.stack,
        tok_named(old(tok)) == m.named,
        old(b).n() + 2 * tok_remaining(old(tok)).len() + 8 < u32::MAX,
        tok_remaining(old(tok)).len() <= fuel,
    ensures
        final(b).wf(),
        final(b).extends(old(b)),
        r is Ok ==> exists|nt: int|
            {
                &&& 0 < nt <= tok_remaining(old(tok)).len()
                &&& tok_remaining(final(tok)) == tok_remaining(old(tok)).skip(nt)
                &&& tok_stack(final(tok)) == m.stack
                &&& tok_named(final(tok)) == false
                &&& swf(after_value(m), tok_remaining(final(tok)))
                &&& value_run(#[trigger] tok_remaining(old(tok)).take(nt))
                &&& final(b).toks() == old(b).toks() + tok_remaining(old(tok)).take(nt)
                &&& final(b).n() <= old(b).n() + 2 * nt
            },
        r is Ok ==> final(b).n() > old(b).n() && is_value_open_id(
            final(b).accum.kinds()[old(b).n()],
        ),
        crate::tokens::error_free(tok_remaining(old(tok))) && crate::tokens::starts_value(
            tok_remaining(old(tok))[0],
        ) ==> r is Ok,
        r is Ok ==> subtree_span(bits_of(final(b).data()).subrange(old(b).n(), final(b).n())),
        r is Ok ==> paired_range(final(b).data(), old(b).n(), final(b).n()),
    decreases fuel, 1int,
{
    let ghost rem0 = tok_remaining(tok);
    let ghost toks0 = b.toks();
    let ghost n0 = b.n();
    proof {
        assert(rem0.len() > 0);
        assert(!(rem0[0] is Name)) by {
            if !(rem0[0] is Error) {
                assert(mstep(m, rem0[0]) is Some);
            }
        }
    }
    let kind = match tok.peek() {
        Ok(k) => k,
        Err(e) => {
            proof {
                if crate::tokens::error_free(rem0) && crate::tokens::starts_value(rem0[0]) {
                    assert(false);
                }
            }
            return Err(e);
        },
    };
    match kind {
        ValueType::Array => parse_array(tok, b, Ghost(m), Ghost(rem0), Ghost(toks0), Ghost(fuel)),
        ValueType::Object => parse_object(tok, b, Ghost(m), Ghost(rem0), Ghost(toks0), Ghost(fuel)),
        ValueType::String => {
            proof {
                assert(rem0[0] is Str || rem0[0] is Error);
            }
            let sv = match tok.next_string() {
                Ok(s) => s,
                Err(e) => {
                    proof {
                        if crate::tokens::error_free(rem0) {
                            assert(false);
                        }
                    }
                    return Err(e);
                },
            };
            b.string_value(sv.as_str());
            proof {
                finish_leaf(m, rem0, Token::Str(sv@));
                assert(b.toks() =~= toks0 + rem0.take(1));
                lemma_leaf_bits(b, old(b).n(), STRING_OPEN_ID);
            }
            Ok(())
        },
        ValueType::Number => {
            proof {
                assert(rem0[0] is Num || rem0[0] is Error);
            }
            let nv = match tok.next_number_str() {
                Ok(s) => s,
                Err(e) => {
                    proof {
                        if crate::tokens::error_free(rem0) {
                            assert(false);
                        }
                    }
                    return Err(e);
                },
            };
            let ghost nvv = nv@;
            b.number_value(nv);
            proof {
                finish_leaf(m, rem0, Token::Num(nvv));
                assert(b.toks() =~= toks0 + rem0.take(1));
                lemma_leaf_bits(b, old(b).n(), NUMBER_OPEN_ID);
            }
            Ok(())
        },
        ValueType::Boolean => {
            proof {
                assert(rem0[0] is Bool || rem0[0] is Error);
            }
            let bv = match tok.next_bool() {
                Ok(v) => v,
                Err(e) => {
                    proof {
                        if crate::tokens::error_free(rem0) {
                            assert(false);
                        }
                    }
                    return Err(e);
                },
            };
            b.bool_value(bv);
            proof {
                finish_leaf(m, rem0, Token::Bool(bv));
                assert(b.toks() =~= toks0 + rem0.take(1));
                lemma_leaf_bits(b, old(b).n(), BOOLEAN_OPEN_ID);
            }
            Ok(())
        },
        ValueType::Null => {
            proof {
                assert(rem0[0] is Null || rem0[0] is Error);
            }
            match tok.next_null() {
                Ok(()) => {},
                Err(e) => {
                    proof {
                        if crate::tokens::error_free(rem0) {
                            assert(false);
                        }
                    }
                    return Err(e);
                },
            }
            b.null_value();
            proof {
                finish_leaf(m, rem0, Token::Null);
                assert(b.toks() =~= toks0 + rem0.take(1));
                lemma_leaf_bits(b, old(b).n(), NULL_OPEN_ID);
            }
            Ok(())
        },
    }
}


/// Builder extension is transitive.
proof fn lemma_extends_trans(a: &DocBuilder, mid: &DocBuilder, c: &DocBuilder)
    requires
        mid.extends(a),
        c.extends(mid),
    ensures
        c.extends(a),
{
    assert forall|i: int| 0 <= i < a.accum.infos().len() implies #[trigger] c.accum.infos()[i]
        == a.accum.infos()[i] by {
        assert(mid.accum.infos()[i] == a.accum.infos()[i]);
    }
    assert forall|i: int| 0 <= i < a.text.strs().len() implies #[trigger] c.text.strs()[i]
        == a.text.strs()[i] by {
        assert(mid.text.strs()[i] == a.text.strs()[i]);
    }
    assert forall|i: int| 0 <= i < a.n() implies #[trigger] c.accum.kinds()[i]
        == a.accum.kinds()[i] by {
        assert(mid.accum.kinds()[i] == a.accum.kinds()[i]);
    }
}


/// Reads one array, its elements read recursively.
#[verifier::rlimit(80)]
fn parse_array(
    tok: &mut Tokenizer,
    b: &mut DocBuilder,
    Ghost(m): Ghost<MState>,
    Ghost(rem0): Ghost<Seq<Token>>,
    Ghost(toks0): Ghost<Seq<Token>>,
    Ghost(fuel): Ghost<int>,
) -> (r: Result<(), JsonParseError>)
    requires
        old(b).wf(),
        swf(m, tok_remaining(old(tok))),
        crate::tokens::can_value(m),
        tok_stack(old(tok)) == m.stack,
        tok_named(old(tok)) == m.named,
        old(b).n() + 2 * tok_remaining(old(tok)).len() + 8 < u32::MAX,
        rem0 == tok_remaining(old(tok)),
        toks0 == old(b).toks(),
        tok_remaining(old(tok)).len() <= fuel,
        rem0[0] is BeginArray || rem0[0] is Error,
    ensures
        final(b).wf(),
        final(b).extends(old(b)),
        r is Ok ==> exists|nt: int|
            {
                &&& 0 < nt <= tok_remaining(old(tok)).len()
                &&& tok_remaining(final(tok)) == tok_remaining(old(tok)).skip(nt)
                &&& tok_stack(final(tok)) == m.stack
                &&& tok_named(final(tok)) == false
                &&& swf(after_value(m), tok_remaining(final(tok)))
                &&& value_run(#[trigger] tok_remaining(old(tok)).take(nt))
                &&& final(b).toks() == old(b).toks() + tok_remaining(old(tok)).take(nt)
                &&& final(b).n() <= old(b).n() + 2 * nt
            },
        r is Ok ==> final(b).n() > old(b).n() && is_value_open_id(
            final(b).accum.kinds()[old(b).n()],
        ),
        crate::tokens::error_free(rem0) && crate::tokens::starts_value(rem0[0]) ==> r is Ok,
        r is Ok ==> subtree_span(bits_of(final(b).data()).subrange(old(b).n(), final(b).n())),
        r is Ok ==> paired_range(final(b).data(), old(b).n(), final(b).n()),
    decreases fuel, 0int,
{
    let ghost n0 = b.n();

            proof {
                assert(rem0[0] is BeginArray || rem0[0] is Error);
            }
            match tok.begin_array() {
                Ok(()) => {},
                Err(e) => {
                    proof {
                        if crate::tokens::error_free(rem0) {
                            assert(false);
                        }
                    }
                    return Err(e);
                },
            }
            let ghost m_in = MState { stack: m.stack.push(false), named: false, done: false };
            proof {
                assert(mstep(m, Token::BeginArray) == Some(m_in));
                assert(swf(m_in, tok_remaining(tok)));
            }
            b.begin_array();
            let ghost b_start = *b;
            let ghost bound = n0 + 2 * rem0.len();
            let ghost mut items = Seq::<Token>::empty();
            let ghost mut ct = 0int;
            let mut closing = false;
            proof {
                assert(items =~= rem0.subrange(1, 1 + ct));
                assert(b.toks() =~= toks0 + seq![Token::BeginArray] + items);
                assert(crate::tokens::items_run(items));
                assert(tok_remaining(tok) =~= rem0.skip(1 + ct));
                assert(bits_of(b.data()).subrange(n0 + 1, b.n()) =~= Seq::<bool>::empty());
            }
            while !closing
                invariant
                    b.wf(),
                    b.extends(&b_start),
                    b_start.extends(old(b)),
                    b_start.n() == n0 + 1,
                    0 <= n0,
                    b_start.accum.kinds()[n0] == ARRAY_OPEN_ID,
                    balanced_bits(bits_of(b.data()).subrange(n0 + 1, b.n())),
                    paired_range(b.data(), n0 + 1, b.n()),
                    n0 < b.n(),
                    0 <= ct,
                    1 + ct <= rem0.len(),
                    items == rem0.subrange(1, 1 + ct),
                    crate::tokens::items_run(items),
                    tok_remaining(tok) == rem0.skip(1 + ct),
                    swf(m_in, tok_remaining(tok)),
                    tok_stack(tok) == m_in.stack,
                    tok_named(tok) == false,
                    m_in == (MState { stack: m.stack.push(false), named: false, done: false }),
                    b.toks() == toks0 + seq![Token::BeginArray] + items,
                    b.n() + 2 * tok_remaining(tok).len() <= bound,
                    bound + 8 < u32::MAX,
                    rem0.len() <= fuel,
                    b.n() <= n0 + 2 * (1 + ct),
                    closing ==> tok_remaining(tok).len() > 0 && tok_remaining(tok)[0]
                        is EndArray,
                decreases 2 * tok_remaining(tok).len() + (if closing {
                    0int
                } else {
                    1int
                }),
            {
                proof {
                    assert(tok_remaining(tok).len() > 0);
                }
                let h = match tok.has_next() {
                    Ok(h) => h,
                    Err(e) => {
                        proof {
                            if crate::tokens::error_free(rem0) {
                                assert(tok_remaining(tok)[0] == rem0[1 + ct]);
                                assert(false);
                            }
                        }
                        return Err(e);
                    },
                };
                if !h {
                    proof {
                        let head = tok_remaining(tok)[0];
                        assert(head is EndArray || head is EndObject);
                        assert(mstep(m_in, head) is Some);
                        assert(head is EndArray);
                    }
                    closing = true;
                } else {
                    proof {
                        let head = tok_remaining(tok)[0];
                        assert(!(head is EndArray) && !(head is EndObject));
                        assert(crate::tokens::can_value(m_in));
                    }
                    let ghost rem_i = tok_remaining(tok);
                    let ghost b_i = *b;
                    proof {
                        assert(rem_i.len() == rem0.len() - 1 - ct);
                        assert(tok_remaining(tok).len() < rem0.len());
                    }
                    match parse_item(tok, b, Ghost(m_in), Ghost(fuel - 1)) {
                        Ok(()) => {},
                        Err(e) => {
                            proof {
                                if crate::tokens::error_free(rem0) {
                                    assert(crate::tokens::error_free(rem_i)) by {
                                        assert forall|i2: int| 0 <= i2 < rem_i.len() implies !((
                                        #[trigger] rem_i[i2]) is Error) by {
                                            assert(rem_i[i2] == rem0[1 + ct + i2]);
                                        }
                                    }
                                    assert(!(rem_i[0] is Error));
                                    assert(mstep(m_in, rem_i[0]) is Some);
                                    assert(crate::tokens::starts_value(rem_i[0]));
                                    assert(false);
                                }
                            }
                            return Err(e);
                        },
                    }
                    proof {
                        let nt_i = choose|nt_i: int|
                            {
                                &&& 0 < nt_i <= rem_i.len()
                                &&& tok_remaining(tok) == rem_i.skip(nt_i)
                                &&& tok_stack(tok) == m_in.stack
                                &&& tok_named(tok) == false
                                &&& swf(after_value(m_in), tok_remaining(tok))
                                &&& value_run(#[trigger] rem_i.take(nt_i))
                                &&& b.toks() == b_i.toks() + rem_i.take(nt_i)
                                &&& b.n() <= b_i.n() + 2 * nt_i
                            };
                        let run_i = rem_i.take(nt_i);
                        assert(after_value(m_in) == m_in);
                        lemma_extends_trans(&b_start, &b_i, b);
                        crate::tokens::lemma_items_extend(items, run_i);
                        lemma_bits_stable(b_i.data(), b.data(), b_i.n());
                        assert(bits_of(b.data()).subrange(n0 + 1, b_i.n()) =~= bits_of(
                            b_i.data(),
                        ).subrange(n0 + 1, b_i.n()));
                        assert(bits_of(b.data()).subrange(n0 + 1, b.n()) =~= bits_of(
                            b.data(),
                        ).subrange(n0 + 1, b_i.n()) + bits_of(b.data()).subrange(
                            b_i.n(),
                            b.n(),
                        ));
                        lemma_balanced_extend(
                            bits_of(b_i.data()).subrange(n0 + 1, b_i.n()),
                            bits_of(b.data()).subrange(b_i.n(), b.n()),
                        );
                        lemma_paired_stable(b_i.data(), b.data(), n0 + 1, b_i.n());
                        lemma_paired_union(b.data(), n0 + 1, b_i.n(), b.n());
                        assert(items + run_i =~= rem0.subrange(1, 1 + ct + nt_i));
                        assert(rem_i.skip(nt_i) =~= rem0.skip(1 + ct + nt_i));
                        assert(b.toks() =~= toks0 + seq![Token::BeginArray] + (items + run_i));
                        items = items + run_i;
                        ct = ct + nt_i;
                    }
                }
            }
            match tok.end_array() {
                Ok(()) => {},
                Err(e) => {
                    return Err(e);
                },
            }
            let ghost b_closed = *b;
            b.end_array();
            proof {
                lemma_extends_trans(&b_start, &b_closed, b);
                lemma_extends_trans(old(b), &b_start, b);
                lemma_bits_stable(b_closed.data(), b.data(), b_closed.n());
                assert(b.accum.lookup().wf());
                assert(b.accum.infos()[ARRAY_OPEN_ID as int] == crate::kinds::fixed_info(
                    ARRAY_OPEN_ID,
                ));
                assert(b.accum.infos()[ARRAY_CLOSE_ID as int] == crate::kinds::fixed_info(
                    ARRAY_CLOSE_ID,
                ));
                let inner_bits = bits_of(b.data()).subrange(n0 + 1, b_closed.n());
                assert(inner_bits =~= bits_of(b_closed.data()).subrange(n0 + 1, b_closed.n()));
                assert(balanced_bits(inner_bits));
                assert(bits_of(b.data())[n0]) by {
                    assert(b.accum.kinds()[n0] == ARRAY_OPEN_ID);
                }
                assert(!bits_of(b.data())[b.n() - 1]) by {
                    assert(b.accum.kinds()[b.n() - 1] == ARRAY_CLOSE_ID);
                }
                assert(bits_of(b.data()).subrange(n0, b.n()) =~= seq![true] + inner_bits + seq![
                    false,
                ]);
                lemma_wrap_span(inner_bits);
                lemma_paired_stable(b_closed.data(), b.data(), n0 + 1, b_closed.n());
                assert(crate::kinds::fixed_info(ARRAY_CLOSE_ID).kind == crate::kinds::fixed_info(
                    ARRAY_OPEN_ID,
                ).kind);
                lemma_paired_wrap(b.data(), n0, b.n());
                let nt = 1 + ct + 1;
                assert(rem0.skip(1 + ct)[0] is EndArray);
                assert(rem0[1 + ct] is EndArray);
                assert(rem0.take(nt) =~= seq![Token::BeginArray] + items + seq![
                    Token::EndArray,
                ]);
                crate::tokens::lemma_array_run(items);
                assert(tok_remaining(tok) =~= rem0.skip(nt));
                assert(b.toks() =~= toks0 + rem0.take(nt));
                assert(mstep(m_in, Token::EndArray) == Some(after_value(m))) by {
                    assert(m_in.stack.drop_last() =~= m.stack);
                }
                assert(swf(after_value(m), tok_remaining(tok)));
                assert({
                    &&& 0 < nt <= rem0.len()
                    &&& tok_remaining(tok) == rem0.skip(nt)
                    &&& tok_stack(tok) == m.stack
                    &&& tok_named(tok) == false
                    &&& swf(after_value(m), tok_remaining(tok))
                    &&& value_run(rem0.take(nt))
                    &&& b.toks() == toks0 + rem0.take(nt)
                    &&& b.n() <= n0 + 2 * nt
                });
            }
            Ok(())
            }

/// Reads one object, its member values read recursively.
#[verifier::rlimit(100)]
fn parse_object(
    tok: &mut Tokenizer,
    b: &mut DocBuilder,
    Ghost(m): Ghost<MState>,
    Ghost(rem0): Ghost<Seq<Token>>,
    Ghost(toks0): Ghost<Seq<Token>>,
    Ghost(fuel): Ghost<int>,
) -> (r: Result<(), JsonParseError>)
    requires
        old(b).wf(),
        swf(m, tok_remaining(old(tok))),
        crate::tokens::can_value(m),
        tok_stack(old(tok)) == m.stack,
        tok_named(old(tok)) == m.named,
        old(b).n() + 2 * tok_remaining(old(tok)).len() + 8 < u32::MAX,
        rem0 == tok_remaining(old(tok)),
        toks0 == old(b).toks(),
        tok_remaining(old(tok)).len() <= fuel,
        rem0[0] is BeginObject || rem0[0] is Error,
    ensures
        final(b).wf(),
        final(b).extends(old(b)),
        r is Ok ==> exists|nt: int|
            {
                &&& 0 < nt <= tok_remaining(old(tok)).len()
                &&& tok_remaining(final(tok)) == tok_remaining(old(tok)).skip(nt)
                &&& tok_stack(final(tok)) == m.stack
                &&& tok_named(final(tok)) == false
                &&& swf(after_value(m), tok_remaining(final(tok)))
                &&& value_run(#[trigger] tok_remaining(old(tok)).take(nt))
                &&& final(b).toks() == old(b).toks() + tok_remaining(old(tok)).take(nt)
                &&& final(b).n() <= old(b).n() + 2 * nt
            },
        r is Ok ==> final(b).n() > old(b).n() && is_value_open_id(
            final(b).accum.kinds()[old(b).n()],
        ),
        crate::tokens::error_free(rem0) && crate::tokens::starts_value(rem0[0]) ==> r is Ok,
        r is Ok ==> subtree_span(bits_of(final(b).data()).subrange(old(b).n(), final(b).n())),
        r is Ok ==> paired_range(final(b).data(), old(b).n(), final(b).n()),
    decreases fuel, 0int,
{
    let ghost n0 = b.n();

            proof {
                assert(rem0[0] is BeginObject || rem0[0] is Error);
            }
            match tok.begin_object() {
                Ok(()) => {},
                Err(e) => {
                    proof {
                        if crate::tokens::error_free(rem0) {
                            assert(false);
                        }
                    }
                    return Err(e);
                },
            }
            let ghost m_in = MState { stack: m.stack.push(true), named: false, done: false };
            proof {
                assert(mstep(m, Token::BeginObject) == Some(m_in));
                assert(swf(m_in, tok_remaining(tok)));
            }
            b.begin_object();
            let ghost b_start = *b;
            let ghost bound = n0 + 2 * rem0.len();
            let ghost mut members = Seq::<Token>::empty();
            let ghost mut ct = 0int;
            let mut closing = false;
            proof {
                assert(members =~= rem0.subrange(1, 1 + ct));
                assert(b.toks() =~= toks0 + seq![Token::BeginObject] + members);
                assert(crate::tokens::members_run(members));
                assert(tok_remaining(tok) =~= rem0.skip(1 + ct));
                assert(bits_of(b.data()).subrange(n0 + 1, b.n()) =~= Seq::<bool>::empty());
            }
            while !closing
                invariant
                    b.wf(),
                    b.extends(&b_start),
                    b_start.extends(old(b)),
                    b_start.n() == n0 + 1,
                    0 <= n0,
                    b_start.accum.kinds()[n0] == OBJECT_OPEN_ID,
                    balanced_bits(bits_of(b.data()).subrange(n0 + 1, b.n())),
                    paired_range(b.data(), n0 + 1, b.n()),
                    n0 < b.n(),
                    0 <= ct,
                    1 + ct <= rem0.len(),
                    members == rem0.subrange(1, 1 + ct),
                    crate::tokens::members_run(members),
                    tok_remaining(tok) == rem0.skip(1 + ct),
                    swf(m_in, tok_remaining(tok)),
                    tok_stack(tok) == m_in.stack,
                    tok_named(tok) == false,
                    m_in == (MState { stack: m.stack.push(true), named: false, done: false }),
                    b.toks() == toks0 + seq![Token::BeginObject] + members,
                    b.n() + 2 * tok_remaining(tok).len() <= bound,
                    bound + 8 < u32::MAX,
                    rem0.len() <= fuel,
                    b.n() <= n0 + 2 * (1 + ct),
                    closing ==> tok_remaining(tok).len() > 0 && tok_remaining(tok)[0]
                        is EndObject,
                decreases 2 * tok_remaining(tok).len() + (if closing {
                    0int
                } else {
                    1int
                }),
            {
                proof {
                    assert(tok_remaining(tok).len() > 0);
                }
                let h = match tok.has_next() {
                    Ok(h) => h,
                    Err(e) => {
                        proof {
                            if crate::tokens::error_free(rem0) {
                                assert(tok_remaining(tok)[0] == rem0[1 + ct]);
                                assert(false);
                            }
                        }
                        return Err(e);
                    },
                };
                if !h {
                    proof {
                        let head = tok_remaining(tok)[0];
                        assert(head is EndArray || head is EndObject);
                        assert(mstep(m_in, head) is Some);
                        assert(head is EndObject);
                    }
                    closing = true;
                } else {
                    proof {
                        let head = tok_remaining(tok)[0];
                        assert(!(head is EndArray) && !(head is EndObject));
                        if !(head is Error) {
                            assert(mstep(m_in, head) is Some);
                            assert(head is Name);
                        }
                    }
                    let name = match tok.next_name() {
                        Ok(s) => s,
                        Err(e) => {
                            proof {
                                if crate::tokens::error_free(rem0) {
                                    assert(tok_remaining(tok)[0] == rem0[1 + ct]);
                                    assert(false);
                                }
                            }
                            return Err(e);
                        },
                    };
                    let ghost m_named = MState { stack: m_in.stack, named: true, done: false };
                    proof {
                        let hb = rem0.skip(1 + ct)[0];
                        assert(hb is Name) by {
                            if hb is Error {
                                assert(false);
                            }
                        }
                        assert(hb == Token::Name(name@));
                        assert(mstep(m_in, Token::Name(name@)) == Some(m_named));
                        assert(swf(m_named, tok_remaining(tok)));
                        assert(crate::tokens::can_value(m_named));
                    }
                    let ghost b_loop = *b;
                    let close_id = b.begin_field(name.as_str());
                    let ghost rem_i = tok_remaining(tok);
                    let ghost b_i = *b;
                    proof {
                        assert(rem_i.len() == rem0.len() - 1 - ct - 1);
                        assert(tok_remaining(tok).len() < rem0.len());
                    }
                    match parse_item(tok, b, Ghost(m_named), Ghost(fuel - 1)) {
                        Ok(()) => {},
                        Err(e) => {
                            proof {
                                if crate::tokens::error_free(rem0) {
                                    assert(crate::tokens::error_free(rem_i)) by {
                                        assert forall|i2: int| 0 <= i2 < rem_i.len() implies !((
                                        #[trigger] rem_i[i2]) is Error) by {
                                            assert(rem_i[i2] == rem0[1 + ct + 1 + i2]);
                                        }
                                    }
                                    assert(!(rem_i[0] is Error));
                                    assert(mstep(m_named, rem_i[0]) is Some);
                                    assert(crate::tokens::starts_value(rem_i[0]));
                                    assert(false);
                                }
                            }
                            return Err(e);
                        },
                    }
                    proof {
                        assert(b.accum.infos()[close_id.0 as int] == (InfoV {
                            kind: KindV::Field(name@),
                            open: false,
                        }));
                    }
                    let ghost b_j = *b;
                    b.end_field(close_id);
                    proof {
                        lemma_extends_trans(&b_i, &b_j, b);
                        lemma_extends_trans(&b_loop, &b_i, b);
                        lemma_extends_trans(&b_start, &b_i, b);
                        lemma_object_member_step(&b_loop, &b_i, &b_j, b, n0, name@, close_id.0);
                        let nt_i = choose|nt_i: int|
                            {
                                &&& 0 < nt_i <= rem_i.len()
                                &&& tok_remaining(tok) == rem_i.skip(nt_i)
                                &&& tok_stack(tok) == m_named.stack
                                &&& tok_named(tok) == false
                                &&& swf(after_value(m_named), tok_remaining(tok))
                                &&& value_run(#[trigger] rem_i.take(nt_i))
                                &&& b_after_value_toks(b_i, rem_i, nt_i, *b)
                                &&& b.n() <= b_i.n() + 2 * nt_i + 1
                            };
                        let run_i = rem_i.take(nt_i);
                        assert(after_value(m_named) == m_in);
                        crate::tokens::lemma_members_extend(members, name@, run_i);
                        let member = seq![Token::Name(name@)] + run_i;
                        assert(members + member =~= rem0.subrange(1, 1 + ct + 1 + nt_i));
                        assert(rem_i.skip(nt_i) =~= rem0.skip(1 + ct + 1 + nt_i));
                        assert(b.toks() =~= toks0 + seq![Token::BeginObject] + (members
                            + member));
                        members = members + member;
                        ct = ct + 1 + nt_i;
                    }
                }
            }
            match tok.end_object() {
                Ok(()) => {},
                Err(e) => {
                    return Err(e);
                },
            }
            let ghost b_closed = *b;
            b.end_object();
            proof {
                lemma_extends_trans(&b_start, &b_closed, b);
                lemma_extends_trans(old(b), &b_start, b);
                lemma_bits_stable(b_closed.data(), b.data(), b_closed.n());
                assert(b.accum.lookup().wf());
                assert(b.accum.infos()[OBJECT_OPEN_ID as int] == crate::kinds::fixed_info(
                    OBJECT_OPEN_ID,
                ));
                assert(b.accum.infos()[OBJECT_CLOSE_ID as int] == crate::kinds::fixed_info(
                    OBJECT_CLOSE_ID,
                ));
                let inner_bits = bits_of(b.data()).subrange(n0 + 1, b_closed.n());
                assert(inner_bits =~= bits_of(b_closed.data()).subrange(n0 + 1, b_closed.n()));
                assert(balanced_bits(inner_bits));
                assert(bits_of(b.data())[n0]) by {
                    assert(b.accum.kinds()[n0] == OBJECT_OPEN_ID);
                }
                assert(!bits_of(b.data())[b.n() - 1]) by {
                    assert(b.accum.kinds()[b.n() - 1] == OBJECT_CLOSE_ID);
                }
                assert(bits_of(b.data()).subrange(n0, b.n()) =~= seq![true] + inner_bits + seq![
                    false,
                ]);
                lemma_wrap_span(inner_bits);
                lemma_paired_stable(b_closed.data(), b.data(), n0 + 1, b_closed.n());
                assert(crate::kinds::fixed_info(OBJECT_CLOSE_ID).kind == crate::kinds::fixed_info(
                    OBJECT_OPEN_ID,
                ).kind);
                lemma_paired_wrap(b.data(), n0, b.n());
                let nt = 1 + ct + 1;
                assert(rem0.skip(1 + ct)[0] is EndObject);
                assert(rem0[1 + ct] is EndObject);
                assert(rem0.take(nt) =~= seq![Token::BeginObject] + members + seq![
                    Token::EndObject,
                ]);
                crate::tokens::lemma_object_run(members);
                assert(tok_remaining(tok) =~= rem0.skip(nt));
                assert(b.toks() =~= toks0 + rem0.take(nt));
                assert(mstep(m_in, Token::EndObject) == Some(after_value(m))) by {
                    assert(m_in.stack.drop_last() =~= m.stack);
                }
                assert(swf(after_value(m), tok_remaining(tok)));
                assert({
                    &&& 0 < nt <= rem0.len()
                    &&& tok_remaining(tok) == rem0.skip(nt)
                    &&& tok_stack(tok) == m.stack
                    &&& tok_named(tok) == false
                    &&& swf(after_value(m), tok_remaining(tok))
                    &&& value_run(rem0.take(nt))
                    &&& b.toks() == toks0 + rem0.take(nt)
                    &&& b.n() <= n0 + 2 * nt
                });
            }
            Ok(())
            }

/// The token bookkeeping shared by the leaf cases of the parse driver.
proof fn finish_leaf(m: MState, rem0: Seq<Token>, t: Token)
    requires
        rem0.len() > 0,
        rem0[0] == t,
        crate::tokens::can_value(m),
        t is Str || t is Bool || t is Null || (t matches Token::Num(x)
            && crate::tokens::is_json_numeral(x)),
        swf(m, rem0),
    ensures
        rem0.take(1) =~= seq![t],
        value_run(rem0.take(1)),
        rem0.drop_first() == rem0.skip(1),
        swf(after_value(m), rem0.skip(1)),
{
    crate::tokens::lemma_singleton_run(seq![t][0]);
    assert(rem0.take(1) =~= seq![t]);
    assert(rem0.drop_first() =~= rem0.skip(1));
    assert(mstep(m, t) == Some(after_value(m)));
}

/// The token relation of a finished member value, named so the object
/// loop can bind its witness.
pub open spec fn b_after_value_toks(
    b_i: DocBuilder,
    rem_i: Seq<Token>,
    nt_i: int,
    b2: DocBuilder,
) -> bool {
    b2.toks() == b_i.toks() + rem_i.take(nt_i)
}


/// Default soft cap of a text block, in bytes.
pub const TEXT_USAGE_BLOCK_SIZE: usize = 1024 * 1024;

/// Default capacity of the decompression cache, in blocks.
pub const TEXT_USAGE_CACHE_BLOCKS: usize = 10;

/// A parsed JSON document: the balanced-parentheses tree over the node
/// positions, the per-kind usage index, the kind registry, and the three
/// value stores.
pub struct Document {
    pub tree: vers_vecs::BpTree,
    pub usage: NodeInfoVec,
    pub lookup: NodeLookup,
    pub text_usage: TextUsage,
    pub numbers: Vec<String>,
    pub booleans: vers_vecs::BitVec,
    pub kinds: Ghost<Seq<u64>>,
}

impl Document {
    pub open spec fn data(&self) -> DocData {
        DocData {
            kinds: self.kinds@,
            infos: self.lookup.infos(),
            strs: self.text_usage.strs(),
            nums: self.numbers.deep_view(),
            bools: bitvec_bits(self.booleans),
        }
    }

    pub open spec fn len(&self) -> int {
        self.kinds@.len() as int
    }

    pub open spec fn bits(&self) -> Seq<bool> {
        bp_bits(self.tree)
    }

    pub open spec fn wf(&self) -> bool {
        &&& self.lookup.wf()
        &&& self.usage.wf()
        &&& self.text_usage.wf()
        &&& self.usage.kind_count() == self.lookup.infos().len()
        &&& self.usage.spec_len() == self.kinds@.len()
        &&& self.kinds@.len() < u32::MAX
        &&& 0 < self.kinds@.len()
        &&& self.bits() == bits_of(self.data())
        &&& forall|i: int|
            0 <= i < self.len() ==> (#[trigger] self.kinds@[i] as int) < self.lookup.infos().len()
        &&& forall|k: int|
            0 <= k < self.usage.kind_count() ==> self.usage.elems(k) == positions_of(
                self.kinds@,
                k as u64,
            )
        &&& positions_of(self.kinds@, STRING_OPEN_ID).len() == self.text_usage.strs().len()
        &&& positions_of(self.kinds@, NUMBER_OPEN_ID).len() == self.numbers.deep_view().len()
        &&& positions_of(self.kinds@, BOOLEAN_OPEN_ID).len() == bitvec_bits(self.booleans).len()
        &&& complete_value_run(doc_tokens(self.data()))
        &&& is_value_open_id(self.kinds@[0])
        &&& subtree_span(bits_of(self.data()))
        &&& paired_range(self.data(), 0, self.len())
    }

    /// Freezes a finished builder into a document. The text store is
    /// sealed first, while the usage positions are still compact, then
    /// the per-kind index is materialized.
    fn assemble(b: DocBuilder) -> (r: Document)
        requires
            b.wf(),
            0 < b.n(),
            b.accum.kinds().len() < u32::MAX,
            complete_value_run(b.toks()),
            is_value_open_id(b.accum.kinds()[0]),
            subtree_span(bits_of(b.data())),
            paired_range(b.data(), 0, b.n()),
        ensures
            r.wf(),
            r.data() == b.data(),
            r.text_usage.cache_capacity == b.text.cache_capacity,
    {
        let DocBuilder { accum, parens, text, numbers, booleans } = b;
        let ghost kinds = accum.kinds();
        let text_usage = text.build();
        let pair = accum.build();
        let usage = pair.0;
        let lookup = pair.1;
        let tree = bp_from_bits(parens);
        let r = Document { tree, usage, lookup, text_usage, numbers, booleans, kinds: Ghost(kinds) };
        proof {
            assert(r.data() == b.data());
            assert(r.bits() =~= bits_of(r.data()));
        }
        r
    }

    /// Parses one JSON document from bytes. On success, the tokens of
    /// the built document are exactly the complete value read from the
    /// front of the input's token stream.
    pub fn parse_with(json: &[u8], bitpacked: bool) -> (r: Result<Document, JsonParseError>)
        requires
            json@.len() < 0x3fff_fff0usize,
        ensures
            r matches Ok(doc) ==> doc.wf() && doc.text_usage.cache_capacity
                == TEXT_USAGE_CACHE_BLOCKS && doc_tokens(doc.data()).len() <= tokens_of(
                json@,
            ).len() && doc_tokens(doc.data()) == tokens_of(json@).take(
                doc_tokens(doc.data()).len() as int,
            ),
            crate::tokens::error_free(tokens_of(json@)) ==> r is Ok,
    {
        let mut tok = Tokenizer::new(json);
        let mut b = DocBuilder::new(bitpacked, TEXT_USAGE_BLOCK_SIZE, TEXT_USAGE_CACHE_BLOCKS);
        let ghost rem0 = tok_remaining(&tok);
        match parse_item(&mut tok, &mut b, Ghost(m_init()), Ghost(rem0.len() as int)) {
            Err(e) => {
                proof {
                    if crate::tokens::error_free(rem0) {
                        assert(rem0.len() > 0);
                        assert(mstep(m_init(), rem0[0]) is Some);
                        assert(crate::tokens::starts_value(rem0[0]));
                        assert(false);
                    }
                }
                Err(e)
            },
            Ok(()) => {
                proof {
                    let nt = choose|nt: int|
                        {
                            &&& 0 < nt <= rem0.len()
                            &&& tok_remaining(&tok) == rem0.skip(nt)
                            &&& tok_stack(&tok) == m_init().stack
                            &&& tok_named(&tok) == false
                            &&& swf(after_value(m_init()), tok_remaining(&tok))
                            &&& value_run(#[trigger] rem0.take(nt))
                            &&& b.toks() == Seq::<Token>::empty() + rem0.take(nt)
                            &&& b.n() <= 0 + 2 * nt
                        };
                    crate::tokens::lemma_value_run_complete(rem0.take(nt));
                    assert(b.toks() =~= rem0.take(nt));
                    assert(b.toks().len() == nt);
                    assert(rem0.take(b.toks().len() as int) == b.toks());
                    assert(bits_of(b.data()).subrange(0, b.n()) =~= bits_of(b.data()));
                }
                let doc = Document::assemble(b);
                Ok(doc)
            },
        }
    }

    /// Parses with the roaring-bitmap usage builder.
    pub fn parse(json: &[u8]) -> (r: Result<Document, JsonParseError>)
        requires
            json@.len() < 0x3fff_fff0usize,
        ensures
            r matches Ok(doc) ==> doc.wf() && doc_tokens(doc.data()).len() <= tokens_of(
                json@,
            ).len() && doc_tokens(doc.data()) == tokens_of(json@).take(
                doc_tokens(doc.data()).len() as int,
            ),
            crate::tokens::error_free(tokens_of(json@)) ==> r is Ok,
    {
        Document::parse_with(json, false)
    }
}

impl crate::usage_builders::RoaringUsageBuilder {
    /// Parses one document gathering positions in roaring bitmaps.
    pub fn parse(json: &[u8]) -> (r: Result<Document, JsonParseError>)
        requires
            json@.len() < 0x3fff_fff0usize,
        ensures
            r matches Ok(doc) ==> doc.wf() && doc_tokens(doc.data()).len() <= tokens_of(
                json@,
            ).len() && doc_tokens(doc.data()) == tokens_of(json@).take(
                doc_tokens(doc.data()).len() as int,
            ),
            crate::tokens::error_free(tokens_of(json@)) ==> r is Ok,
    {
        Document::parse_with(json, false)
    }
}

impl crate::usage_builders::BitpackingUsageBuilder {
    /// Parses one document gathering positions in bit-packed blocks.
    pub fn parse(json: &[u8]) -> (r: Result<Document, JsonParseError>)
        requires
            json@.len() < 0x3fff_fff0usize,
        ensures
            r matches Ok(doc) ==> doc.wf() && doc_tokens(doc.data()).len() <= tokens_of(
                json@,
            ).len() && doc_tokens(doc.data()) == tokens_of(json@).take(
                doc_tokens(doc.data()).len() as int,
            ),
            crate::tokens::error_free(tokens_of(json@)) ==> r is Ok,
    {
        Document::parse_with(json, true)
    }
}


/// The parenthesis bits a document's data implies: open exactly at the
/// positions whose kind is an opening kind.
pub open spec fn bits_of(d: DocData) -> Seq<bool> {
    Seq::new(d.kinds.len(), |i: int| d.infos[d.kinds[i] as int].open)
}

/// Opening bits minus closing bits among the first `j` positions.
pub open spec fn bit_excess(s: Seq<bool>, j: int) -> int
    decreases j,
{
    if j <= 0 {
        0
    } else {
        bit_excess(s, j - 1) + if s[j - 1] {
            1int
        } else {
            -1int
        }
    }
}

/// The bits of one complete subtree: an opening bit first, every proper
/// prefix still open, and the whole closed exactly at the end.
pub open spec fn subtree_span(s: Seq<bool>) -> bool {
    &&& s.len() >= 2
    &&& s[0]
    &&& bit_excess(s, s.len() as int) == 0
    &&& forall|j: int| 0 < j < s.len() ==> bit_excess(s, j) > 0
}

/// The parenthesis bits are balanced: no prefix closes more than it has
/// opened, and the whole closes everything it opens.
pub open spec fn balanced_bits(s: Seq<bool>) -> bool {
    &&& bit_excess(s, s.len() as int) == 0
    &&& forall|j: int| 0 <= j <= s.len() ==> bit_excess(s, j) >= 0
}

/// The excess reads only the bits before `j`.
pub proof fn lemma_bit_excess_prefix(a: Seq<bool>, b: Seq<bool>, j: int)
    requires
        0 <= j <= a.len(),
        j <= b.len(),
        forall|i: int| 0 <= i < j ==> a[i] == b[i],
    ensures
        bit_excess(a, j) == bit_excess(b, j),
    decreases j,
{
    if j > 0 {
        lemma_bit_excess_prefix(a, b, j - 1);
    }
}

/// The excess over a concatenation is the sum of the parts' excesses.
pub proof fn lemma_bit_excess_concat(a: Seq<bool>, b: Seq<bool>, j: int)
    requires
        0 <= j <= b.len(),
    ensures
        bit_excess(a + b, a.len() + j) == bit_excess(a, a.len() as int) + bit_excess(b, j),
    decreases j,
{
    if j == 0 {
        lemma_bit_excess_prefix(a + b, a, a.len() as int);
    } else {
        lemma_bit_excess_concat(a, b, j - 1);
        assert((a + b)[a.len() + j - 1] == b[j - 1]);
    }
}

/// One complete subtree is balanced. This is the parenthesis invariant
/// of a well-formed document's bits.
pub proof fn lemma_subtree_balanced(s: Seq<bool>)
    requires
        subtree_span(s),
    ensures
        balanced_bits(s),
        s.len() > 0,
        s[0],
{
    assert(bit_excess(s, 0) == 0);
}

/// The two bits of a leaf form one subtree.
proof fn lemma_leaf_span(s: Seq<bool>)
    requires
        s.len() == 2,
        s[0],
        !s[1],
    ensures
        subtree_span(s),
{
    reveal_with_fuel(bit_excess, 3);
    assert(bit_excess(s, 1) == 1);
    assert(bit_excess(s, 2) == 0);
    assert forall|j: int| 0 < j < s.len() implies bit_excess(s, j) > 0 by {
        reveal_with_fuel(bit_excess, 3);
        assert(j == 1);
    }
}

/// A complete subtree appended to balanced bits keeps them balanced.
proof fn lemma_balanced_extend(a: Seq<bool>, b: Seq<bool>)
    requires
        balanced_bits(a),
        subtree_span(b),
    ensures
        balanced_bits(a + b),
{
    lemma_subtree_balanced(b);
    assert forall|j: int| 0 <= j <= (a + b).len() implies bit_excess(a + b, j) >= 0 by {
        if j <= a.len() {
            lemma_bit_excess_prefix(a + b, a, j);
        } else {
            lemma_bit_excess_concat(a, b, j - a.len());
        }
    }
    lemma_bit_excess_concat(a, b, b.len() as int);
}

/// Balanced bits between an opening bit and its closing bit form one
/// complete subtree.
proof fn lemma_wrap_span(inner: Seq<bool>)
    requires
        balanced_bits(inner),
    ensures
        subtree_span(seq![true] + inner + seq![false]),
{
    let head = seq![true] + inner;
    let s = head + seq![false];
    assert(head[0] == seq![true][0]);
    assert(s[0] == head[0]);
    assert(bit_excess(head, 1) == 1) by {
        reveal_with_fuel(bit_excess, 3);
        assert(head[0]);
    }
    assert forall|j: int| 0 <= j <= inner.len() implies bit_excess(head, 1 + j) == 1 + bit_excess(
        inner,
        j,
    ) by {
        lemma_bit_excess_concat(seq![true], inner, j);
        assert(bit_excess(seq![true], 1) == 1) by {
            reveal_with_fuel(bit_excess, 3);
            assert(seq![true][0]);
        }
    }
    assert forall|j: int| 0 < j < s.len() implies bit_excess(s, j) > 0 by {
        lemma_bit_excess_prefix(s, head, j);
        if j == 1 {
        } else {
            assert(bit_excess(head, j) == 1 + bit_excess(inner, j - 1));
        }
    }
    lemma_bit_excess_concat(head, seq![false], 1);
    assert(bit_excess(seq![false], 1) == -1) by {
        reveal_with_fuel(bit_excess, 2);
        assert(!seq![false][0]);
    }
    assert(bit_excess(s, s.len() as int) == bit_excess(head, head.len() as int) - 1);
    assert(bit_excess(head, head.len() as int) == 1 + bit_excess(inner, inner.len() as int));
    assert(seq![true] + inner + seq![false] =~= s);
}

/// A scan that closes before a boundary closes at the same place in any
/// sequence that agrees below the boundary.
proof fn lemma_fc_scan_stable(s1: Seq<bool>, s2: Seq<bool>, j: int, dep: nat, b: int)
    requires
        0 <= j <= b,
        b <= s1.len(),
        b <= s2.len(),
        forall|i: int| 0 <= i < b ==> s1[i] == s2[i],
        fc_scan(s1, j, dep) < b,
    ensures
        fc_scan(s2, j, dep) == fc_scan(s1, j, dep),
    decreases b - j,
{
    if j < b {
        assert(s1[j] == s2[j]);
        if s1[j] {
            lemma_fc_scan_stable(s1, s2, j + 1, dep + 1, b);
        } else if dep <= 1 {
        } else {
            lemma_fc_scan_stable(s1, s2, j + 1, (dep - 1) as nat, b);
        }
    } else {
        crate::bp::lemma_fc_scan_range(s1, j, dep);
    }
}

/// Inside one complete subtree, a scan from offset `j` at the subtree's
/// current nesting depth closes exactly at the subtree's last position.
proof fn lemma_fc_scan_span(s: Seq<bool>, i: int, e: int, j: int)
    requires
        0 <= i < e <= s.len(),
        subtree_span(s.subrange(i, e)),
        i < j < e,
        bit_excess(s.subrange(i, e), j - i) > 0,
    ensures
        fc_scan(s, j, bit_excess(s.subrange(i, e), j - i) as nat) == e - 1,
    decreases e - j,
{
    let sub = s.subrange(i, e);
    let dep = bit_excess(sub, j - i);
    assert(s[j] == sub[j - i]);
    assert(bit_excess(sub, j - i + 1) == dep + if sub[j - i] {
        1int
    } else {
        -1int
    });
    if s[j] {
        assert(j + 1 < e) by {
            if j + 1 == e {
                assert(bit_excess(sub, e - i) == dep + 1);
            }
        }
        lemma_fc_scan_span(s, i, e, j + 1);
        assert((dep + 1) as nat == dep as nat + 1);
    } else {
        if dep == 1 {
            assert(bit_excess(sub, j - i + 1) == 0);
            assert(j == e - 1) by {
                if j - i + 1 < e - i {
                    assert(bit_excess(sub, j - i + 1) > 0);
                }
            }
        } else {
            assert(j + 1 < e) by {
                if j + 1 == e {
                    assert(bit_excess(sub, e - i) == dep - 1);
                }
            }
            lemma_fc_scan_span(s, i, e, j + 1);
            assert((dep - 1) as nat == (dep as nat - 1) as nat);
        }
    }
}

/// The matching close of a subtree's opening position is the subtree's
/// last position.
proof fn lemma_span_find_close(s: Seq<bool>, i: int, e: int)
    requires
        0 <= i < e <= s.len(),
        subtree_span(s.subrange(i, e)),
    ensures
        find_close(s, i) == e - 1,
{
    let sub = s.subrange(i, e);
    assert(bit_excess(sub, 1) == 1) by {
        reveal_with_fuel(bit_excess, 2);
        assert(sub[0]);
    }
    lemma_fc_scan_span(s, i, e, i + 1);
}

/// The opening position `i` pairs with a closing position of the same
/// kind before `hi`.
pub open spec fn paired_at(d: DocData, i: int, hi: int) -> bool {
    let fc = find_close(bits_of(d), i);
    &&& i < fc < hi
    &&& (d.kinds[fc] as int) < d.infos.len()
    &&& d.infos[d.kinds[fc] as int] == (InfoV {
        kind: d.infos[d.kinds[i] as int].kind,
        open: false,
    })
}

/// Every opening position in the range closes inside it, at a closing
/// position whose kind is the opening kind with the open flag swapped.
pub open spec fn paired_range(d: DocData, lo: int, hi: int) -> bool {
    forall|i: int| lo <= i < hi && #[trigger] bits_of(d)[i] ==> paired_at(d, i, hi)
}

/// A paired range stays paired in a document that extends it: the scan
/// never leaves the range, so later positions cannot change it.
proof fn lemma_paired_stable(d1: DocData, d2: DocData, lo: int, hi: int)
    requires
        paired_range(d1, lo, hi),
        0 <= lo <= hi <= d1.kinds.len(),
        hi <= d2.kinds.len(),
        forall|i: int| 0 <= i < hi ==> #[trigger] d2.kinds[i] == d1.kinds[i],
        d1.infos.len() <= d2.infos.len(),
        forall|i: int| 0 <= i < d1.infos.len() ==> #[trigger] d2.infos[i] == d1.infos[i],
        forall|i: int| 0 <= i < hi ==> (#[trigger] d1.kinds[i] as int) < d1.infos.len(),
    ensures
        paired_range(d2, lo, hi),
{
    lemma_bits_stable(d1, d2, hi);
    assert forall|i: int| lo <= i < hi && #[trigger] bits_of(d2)[i] implies paired_at(
        d2,
        i,
        hi,
    ) by {
        assert(bits_of(d1)[i]);
        assert(paired_at(d1, i, hi));
        let fc = find_close(bits_of(d1), i);
        lemma_fc_scan_stable(bits_of(d1), bits_of(d2), i + 1, 1, hi);
        assert(find_close(bits_of(d2), i) == fc);
        assert(d2.kinds[fc] == d1.kinds[fc]);
        assert(d2.kinds[i] == d1.kinds[i]);
    }
}

/// Pairing over adjacent ranges gives pairing over their union.
proof fn lemma_paired_union(d: DocData, lo: int, mid: int, hi: int)
    requires
        paired_range(d, lo, mid),
        paired_range(d, mid, hi),
        lo <= mid <= hi,
    ensures
        paired_range(d, lo, hi),
{
    assert forall|i: int| lo <= i < hi && #[trigger] bits_of(d)[i] implies paired_at(
        d,
        i,
        hi,
    ) by {
        if i < mid {
            assert(paired_at(d, i, mid));
        } else {
            assert(paired_at(d, i, hi));
        }
    }
}

/// One opening position, an inner paired range, and a closing position
/// of the opening's kind, pair as a whole.
proof fn lemma_paired_wrap(d: DocData, lo: int, hi: int)
    requires
        0 <= lo,
        lo + 2 <= hi <= d.kinds.len(),
        subtree_span(bits_of(d).subrange(lo, hi)),
        paired_range(d, lo + 1, hi - 1),
        (d.kinds[lo] as int) < d.infos.len(),
        (d.kinds[hi - 1] as int) < d.infos.len(),
        d.infos[d.kinds[hi - 1] as int] == (InfoV {
            kind: d.infos[d.kinds[lo] as int].kind,
            open: false,
        }),
    ensures
        paired_range(d, lo, hi),
{
    lemma_span_find_close(bits_of(d), lo, hi);
    assert forall|i: int| lo <= i < hi && #[trigger] bits_of(d)[i] implies paired_at(
        d,
        i,
        hi,
    ) by {
        if i == lo {
        } else if i == hi - 1 {
            assert(!bits_of(d)[hi - 1]);
        } else {
            assert(paired_at(d, i, hi - 1));
        }
    }
}

/// Documents that agree on their first `j` kinds, with the registry only
/// grown, have the same bits there.
proof fn lemma_bits_stable(d1: DocData, d2: DocData, j: int)
    requires
        0 <= j <= d1.kinds.len(),
        j <= d2.kinds.len(),
        forall|i: int| 0 <= i < j ==> #[trigger] d2.kinds[i] == d1.kinds[i],
        d1.infos.len() <= d2.infos.len(),
        forall|i: int| 0 <= i < d1.infos.len() ==> #[trigger] d2.infos[i] == d1.infos[i],
        forall|i: int| 0 <= i < j ==> (#[trigger] d1.kinds[i] as int) < d1.infos.len(),
    ensures
        forall|i: int| 0 <= i < j ==> #[trigger] bits_of(d2)[i] == bits_of(d1)[i],
{
    assert forall|i: int| 0 <= i < j implies #[trigger] bits_of(d2)[i] == bits_of(d1)[i] by {
        assert(d2.kinds[i] == d1.kinds[i]);
        assert(d2.infos[d1.kinds[i] as int] == d1.infos[d1.kinds[i] as int]);
    }
}

/// An index of a node in the document, always an opening position.
pub use crate::Node;

/// A borrowed view of an object value: the document position of its
/// opening brace.
#[derive(Debug, Clone, Copy, PartialEq, Eq, Structural)]
pub struct ObjectValue {
    pub node: Node,
}

/// A borrowed view of an array value: the document position of its
/// opening bracket.
#[derive(Debug, Clone, Copy, PartialEq, Eq, Structural)]
pub struct ArrayValue {
    pub node: Node,
}

/// One typed JSON value. Containers carry their node; numbers carry
/// their numeral text.
pub enum Value {
    Object(ObjectValue),
    Array(ArrayValue),
    String(String),
    Number(String),
    Boolean(bool),
    Null,
}

/// Mathematical image of a `Value`.
pub enum ValueV {
    Object(int),
    Array(int),
    Str(Seq<char>),
    Num(Seq<char>),
    Bool(bool),
    Null,
}

impl Value {
    pub open spec fn view(&self) -> ValueV {
        match self {
            Value::Object(o) => ValueV::Object(o.node.0 as int),
            Value::Array(a) => ValueV::Array(a.node.0 as int),
            Value::String(s) => ValueV::Str(s@),
            Value::Number(s) => ValueV::Num(s@),
            Value::Boolean(b) => ValueV::Bool(*b),
            Value::Null => ValueV::Null,
        }
    }
}

/// The value standing at an opening position.
pub open spec fn value_at(d: DocData, i: int) -> ValueV {
    let k = d.kinds[i];
    if k == OBJECT_OPEN_ID {
        ValueV::Object(i)
    } else if k == ARRAY_OPEN_ID {
        ValueV::Array(i)
    } else if k == STRING_OPEN_ID {
        ValueV::Str(d.strs[rank_at(d.kinds, STRING_OPEN_ID, i)])
    } else if k == NUMBER_OPEN_ID {
        ValueV::Num(d.nums[rank_at(d.kinds, NUMBER_OPEN_ID, i)])
    } else if k == BOOLEAN_OPEN_ID {
        ValueV::Bool(d.bools[rank_at(d.kinds, BOOLEAN_OPEN_ID, i)])
    } else {
        ValueV::Null
    }
}

/// The position holds the opening of a value.
pub open spec fn is_value_node(d: DocData, i: int) -> bool {
    0 <= i < d.kinds.len() && is_value_open_id(d.kinds[i])
}

/// The position holds the opening of an object member.
pub open spec fn is_field_open(d: DocData, c: int) -> bool {
    &&& 0 <= c < d.kinds.len()
    &&& (d.kinds[c] as int) < d.infos.len()
    &&& d.kinds[c] >= crate::kinds::FIXED_KIND_COUNT
    &&& d.infos[d.kinds[c] as int].open
    &&& d.infos[d.kinds[c] as int].kind is Field
}

/// The next sibling of the node at `c`: the position after its matching
/// close, when that position opens a node.
pub open spec fn sib_pos(d: DocData, c: int) -> Option<int> {
    let fc = find_close(bits_of(d), c);
    if fc + 1 < d.kinds.len() && bits_of(d)[fc + 1] {
        Some(fc + 1)
    } else {
        None
    }
}

/// The document position of the value of the first member named `key`
/// in the member chain starting at `c`.
pub open spec fn field_lookup(d: DocData, c: int, key: Seq<char>) -> Option<int>
    decreases d.kinds.len() - c,
{
    if !(0 <= c < d.kinds.len()) || !is_field_open(d, c) {
        None
    } else if field_name(d.infos[d.kinds[c] as int]) == key {
        if c + 1 < d.kinds.len() && bits_of(d)[c + 1] {
            Some(c + 1)
        } else {
            None
        }
    } else {
        match sib_pos(d, c) {
            Some(ns) => if c < ns <= d.kinds.len() {
                field_lookup(d, ns, key)
            } else {
                None
            },
            None => None,
        }
    }
}

/// The value position of the first member named `key` of the object at
/// `obj`.
pub open spec fn obj_lookup(d: DocData, obj: int, key: Seq<char>) -> Option<int> {
    if obj + 1 < d.kinds.len() && bits_of(d)[obj + 1] {
        field_lookup(d, obj + 1, key)
    } else {
        None
    }
}

/// The kind at every position is the unique kind whose positions list
/// contains it, so the scanning lookup finds exactly it.
proof fn lemma_first_kind(doc: &Document, i: int, j: int)
    requires
        doc.wf(),
        0 <= i < doc.len(),
        0 <= j <= doc.kinds@[i],
    ensures
        doc.usage.first_kind_from(i as u64, j) == Some(doc.kinds@[i]),
    decreases doc.kinds@[i] - j,
{
    lemma_positions_of_contains(doc.kinds@, j as u64, i as u64);
    assert(doc.usage.elems(j) == positions_of(doc.kinds@, j as u64));
    if j == doc.kinds@[i] {
        assert(doc.usage.elems(j).contains(i as u64));
    } else {
        assert(!doc.usage.elems(j).contains(i as u64));
        lemma_first_kind(doc, i, j + 1);
    }
}

/// Compares two strings by their UTF-8 bytes.
fn str_eq_bytes(a: &str, b: &str) -> (r: bool)
    ensures
        r == (a@ == b@),
{
    let ab = a.as_bytes();
    let bb = b.as_bytes();
    proof {
        vstd::utf8::encode_utf8_decode_utf8(a@);
        vstd::utf8::encode_utf8_decode_utf8(b@);
    }
    if ab.len() != bb.len() {
        proof {
            if a@ == b@ {
                assert(ab@.len() == bb@.len());
            }
        }
        return false;
    }
    let n = ab.len();
    let mut j: usize = 0;
    while j < n
        invariant
            n == ab@.len() == bb@.len(),
            j <= n,
            ab@ == vstd::utf8::encode_utf8(a@),
            bb@ == vstd::utf8::encode_utf8(b@),
            vstd::utf8::decode_utf8(vstd::utf8::encode_utf8(a@)) == a@,
            vstd::utf8::decode_utf8(vstd::utf8::encode_utf8(b@)) == b@,
            forall|i: int| 0 <= i < j ==> ab@[i] == bb@[i],
        decreases n - j,
    {
        if *vstd::slice::slice_index_get(ab, j) != *vstd::slice::slice_index_get(bb, j) {
            proof {
                if a@ == b@ {
                    assert(ab@[j as int] == bb@[j as int]);
                }
            }
            return false;
        }
        j += 1;
    }
    proof {
        assert(ab@ =~= bb@);
        assert(a@ == b@);
    }
    true
}

impl Document {
    /// The kind of the position `i`.
    fn node_kind_id(&self, i: usize) -> (r: NodeInfoId)
        requires
            self.wf(),
            i < self.len(),
        ensures
            r.0 == self.kinds@[i as int],
    {
        proof {
            lemma_first_kind(self, i as int, 0);
        }
        match self.usage.node_info_id(i) {
            Some(id) => id,
            None => vstd::pervasive::unreached(),
        }
    }

    /// The root node of the document: position 0.
    pub fn root(&self) -> (r: Node)
        requires
            self.wf(),
        ensures
            r.0 == 0,
    {
        match bp_root(&self.tree) {
            Some(i) => Node(i),
            None => vstd::pervasive::unreached(),
        }
    }

    /// The first child of the node at an opening position.
    pub fn primitive_first_child(&self, node: Node) -> (r: Option<Node>)
        requires
            self.wf(),
            node.0 < self.len(),
            bits_of(self.data())[node.0 as int],
        ensures
            node.0 + 1 < self.len() && bits_of(self.data())[node.0 + 1] ==> r == Some(
                Node((node.0 + 1) as usize),
            ),
            !(node.0 + 1 < self.len() && bits_of(self.data())[node.0 + 1]) ==> r is None,
    {
        match bp_first_child(&self.tree, node.0) {
            Some(i) => Some(Node(i)),
            None => None,
        }
    }

    /// The next sibling of the node at an opening position.
    pub fn primitive_next_sibling(&self, node: Node) -> (r: Option<Node>)
        requires
            self.wf(),
            node.0 < self.len(),
            bits_of(self.data())[node.0 as int],
        ensures
            sib_pos(self.data(), node.0 as int) matches Some(p) ==> r == Some(Node(p as usize)),
            sib_pos(self.data(), node.0 as int) is None ==> r is None,
    {
        proof {
            crate::bp::lemma_fc_scan_range(self.bits(), node.0 + 1, 1);
        }
        match bp_next_sibling(&self.tree, node.0) {
            Some(i) => Some(Node(i)),
            None => None,
        }
    }

    /// The typed value at an opening value position. Strings decode their
    /// block afresh; containers return their node.
    pub fn value(&self, node: Node) -> (r: Value)
        requires
            self.wf(),
            is_value_node(self.data(), node.0 as int),
        ensures
            r.view() == value_at(self.data(), node.0 as int),
    {
        let id = self.node_kind_id(node.0);
        proof {
            lemma_rank_is_count_below(self.kinds@, STRING_OPEN_ID, node.0 as int);
            lemma_rank_is_count_below(self.kinds@, NUMBER_OPEN_ID, node.0 as int);
            lemma_rank_is_count_below(self.kinds@, BOOLEAN_OPEN_ID, node.0 as int);
            lemma_rank_bound(self.kinds@, self.kinds@[node.0 as int], node.0 as int);
        }
        if id.0 == OBJECT_OPEN_ID {
            Value::Object(ObjectValue { node })
        } else if id.0 == ARRAY_OPEN_ID {
            Value::Array(ArrayValue { node })
        } else if id.0 == STRING_OPEN_ID {
            let tid = match self.usage.text_id(node.0) {
                Some(t) => t,
                None => vstd::pervasive::unreached(),
            };
            Value::String(self.text_usage.fetch_string(crate::textstore::TextId(tid)))
        } else if id.0 == NUMBER_OPEN_ID {
            let nid = match self.usage.number_id(node.0) {
                Some(t) => t,
                None => vstd::pervasive::unreached(),
            };
            proof {
                assert(self.numbers.deep_view()[nid as int] == self.numbers@[nid as int]@);
            }
            Value::Number(clone_str(&self.numbers[nid]))
        } else if id.0 == BOOLEAN_OPEN_ID {
            let bid = match self.usage.boolean_id(node.0) {
                Some(t) => t,
                None => vstd::pervasive::unreached(),
            };
            Value::Boolean(bitvec_get(&self.booleans, bid))
        } else {
            Value::Null
        }
    }

    /// The value of the document's root.
    pub fn root_value(&self) -> (r: Value)
        requires
            self.wf(),
        ensures
            r.view() == value_at(self.data(), 0),
    {
        let root = self.root();
        self.value(root)
    }

    /// The string at a string-opening position, read through the text
    /// store's LRU cache: the block holding it becomes the most recently
    /// used entry, and nothing outside the cache changes. The shared
    /// query path (`value`) decodes blocks afresh instead, since it
    /// cannot hold the cache mutably.
    pub fn string_value(&mut self, node: Node) -> (r: String)
        requires
            old(self).wf(),
            node.0 < old(self).len(),
            old(self).kinds@[node.0 as int] == STRING_OPEN_ID,
        ensures
            final(self).wf(),
            r@ == old(self).data().strs[rank_at(old(self).kinds@, STRING_OPEN_ID, node.0 as int)],
            r.view() == value_at(old(self).data(), node.0 as int)->Str_0,
            final(self).tree == old(self).tree,
            final(self).usage == old(self).usage,
            final(self).lookup == old(self).lookup,
            final(self).numbers == old(self).numbers,
            final(self).booleans == old(self).booleans,
            final(self).kinds == old(self).kinds,
            final(self).text_usage.blocks@ == old(self).text_usage.blocks@,
            final(self).text_usage.texts@ == old(self).text_usage.texts@,
            final(self).text_usage.all@ == old(self).text_usage.all@,
            final(self).text_usage.cache_capacity == old(self).text_usage.cache_capacity,
            final(self).data() == old(self).data(),
            old(self).text_usage.cache_capacity == 0
                ==> crate::cache::cache_entries(final(self).text_usage.cache)
                == crate::cache::cache_entries(old(self).text_usage.cache),
            old(self).text_usage.cache_capacity > 0
                ==> crate::cache::cache_entries(final(self).text_usage.cache)
                == crate::textstore::cache_after_touch(
                crate::cache::cache_entries(old(self).text_usage.cache),
                crate::cache::cache_cap(old(self).text_usage.cache),
                old(self).text_usage.texts@[rank_at(
                    old(self).kinds@,
                    STRING_OPEN_ID,
                    node.0 as int,
                )].0,
                old(self).text_usage.blocks@[old(self).text_usage.texts@[rank_at(
                    old(self).kinds@,
                    STRING_OPEN_ID,
                    node.0 as int,
                )].0 as int].strs@,
            ),
    {
        proof {
            lemma_rank_is_count_below(self.kinds@, STRING_OPEN_ID, node.0 as int);
            lemma_rank_bound(self.kinds@, STRING_OPEN_ID, node.0 as int);
        }
        let tid = match self.usage.text_id(node.0) {
            Some(t) => t,
            None => vstd::pervasive::unreached(),
        };
        self.text_usage.get_string(crate::textstore::TextId(tid))
    }
}

/// Relies on String::clone.
fn clone_str(s: &String) -> (r: String)
    ensures
        r@ == s@,
{
    s.clone()
}

impl ObjectValue {
    /// The value of the first member with the given key, walking the
    /// member chain in document order: the first insertion of a key wins.
    pub fn get(&self, doc: &Document, key: &str) -> (r: Option<Value>)
        requires
            doc.wf(),
            self.node.0 < doc.len(),
            doc.kinds@[self.node.0 as int] == OBJECT_OPEN_ID,
        ensures
            obj_lookup(doc.data(), self.node.0 as int, key@) matches Some(p) ==> ((is_value_node(
                doc.data(),
                p,
            ) ==> (r matches Some(v) && v.view() == value_at(doc.data(), p))) && (!is_value_node(
                doc.data(),
                p,
            ) ==> r is None)),
            obj_lookup(doc.data(), self.node.0 as int, key@) is None ==> r is None,
    {
        let ghost d = doc.data();
        let mut cur_opt = doc.primitive_first_child(self.node);
        proof {
            assert(obj_lookup(d, self.node.0 as int, key@) == (match cur_opt {
                Some(c) => field_lookup(d, c.0 as int, key@),
                None => None::<int>,
            }));
        }
        loop
            invariant
                doc.wf(),
                d == doc.data(),
                cur_opt matches Some(c) ==> c.0 < doc.len() && bits_of(d)[c.0 as int],
                obj_lookup(d, self.node.0 as int, key@) == (match cur_opt {
                    Some(c) => field_lookup(d, c.0 as int, key@),
                    None => None::<int>,
                }),
            decreases (match cur_opt {
                Some(c) => doc.len() - c.0,
                None => 0int,
            }),
        {
            let c = match cur_opt {
                None => {
                    return None;
                },
                Some(c) => c,
            };
            let id = doc.node_kind_id(c.0);
            let is_named_field = {
                let info = doc.lookup.by_node_info_id(id);
                match &info.node_type {
                    NodeType::Field(name) => info.is_open_tag && str_eq_bytes(
                        name.as_str(),
                        key,
                    ),
                    _ => {
                        proof {
                            assert(!is_field_open(d, c.0 as int));
                        }
                        return None;
                    },
                }
            };
            proof {
                assert(id.0 >= crate::kinds::FIXED_KIND_COUNT ==> is_field_open(d, c.0 as int)
                    || !doc.lookup.infos()[id.0 as int].open);
            }
            if !{
                let info2 = doc.lookup.by_node_info_id(id);
                info2.is_open_tag
            } {
                proof {
                    assert(bits_of(d)[c.0 as int]);
                    assert(!is_field_open(d, c.0 as int));
                }
                return None;
            }
            proof {
                if id.0 < crate::kinds::FIXED_KIND_COUNT {
                    assert(doc.lookup.infos()[id.0 as int] == crate::kinds::fixed_info(id.0));
                }
            }
            if is_named_field {
                proof {
                    assert(is_field_open(d, c.0 as int));
                    assert(field_name(d.infos[d.kinds[c.0 as int] as int]) == key@);
                }
                match doc.primitive_first_child(c) {
                    Some(vn) => {
                        let vid = doc.node_kind_id(vn.0);
                        if vid.0 == OBJECT_OPEN_ID || vid.0 == ARRAY_OPEN_ID || vid.0
                            == STRING_OPEN_ID || vid.0 == NUMBER_OPEN_ID || vid.0
                            == BOOLEAN_OPEN_ID || vid.0 == NULL_OPEN_ID {
                            return Some(doc.value(vn));
                        } else {
                            proof {
                                assert(!is_value_node(d, vn.0 as int));
                            }
                            return None;
                        }
                    },
                    None => {
                        return None;
                    },
                }
            } else {
                proof {
                    if is_field_open(d, c.0 as int) {
                        assert(field_name(d.infos[d.kinds[c.0 as int] as int]) != key@);
                    } else {
                        assert(!(doc.lookup.infos()[id.0 as int].kind is Field)
                            || id.0 < crate::kinds::FIXED_KIND_COUNT);
                    }
                    crate::bp::lemma_fc_scan_range(bits_of(d), c.0 + 1, 1);
                }
                if !{
                    let info3 = doc.lookup.by_node_info_id(id);
                    matches!(&info3.node_type, NodeType::Field(_))
                } {
                    return None;
                }
                cur_opt = doc.primitive_next_sibling(c);
            }
        }
    }
}


/// The machine facts one serialization step needs: the emitted prefix is
/// legal, and the position's token (if any) is a legal next step.
proof fn serialize_step(d: DocData, j: int)
    requires
        0 <= j < d.kinds.len(),
        complete_value_run(doc_tokens(d)),
    ensures
        mrun(m_init(), tokens_upto(d, j)) is Some,
        contribution(d, j).len() == 1 ==> mstep(
            mrun(m_init(), tokens_upto(d, j)).unwrap(),
            contribution(d, j)[0],
        ) is Some,
        tokens_upto(d, j + 1) == tokens_upto(d, j) + contribution(d, j),
        contribution(d, j).len() == 0 ==> tokens_upto(d, j + 1) == tokens_upto(d, j),
        contribution(d, j).len() == 1 ==> tokens_upto(d, j + 1) == tokens_upto(d, j).push(
            contribution(d, j)[0],
        ),
{
    lemma_tokens_split(d, j);
    lemma_mrun_append(m_init(), tokens_upto(d, j), tokens_from(d, j));
    assert(mrun(m_init(), tokens_upto(d, j)) is Some) by {
        if mrun(m_init(), tokens_upto(d, j)) is None {
            assert(mrun(m_init(), doc_tokens(d)) is None);
        }
    }
    let st = mrun(m_init(), tokens_upto(d, j)).unwrap();
    assert(mrun(st, tokens_from(d, j)) == Some(m_done()));
    if contribution(d, j).len() == 1 {
        assert(tokens_from(d, j) == contribution(d, j) + tokens_from(d, j + 1));
        assert(tokens_from(d, j)[0] == contribution(d, j)[0]);
        assert(tokens_from(d, j).len() > 0);
        if mstep(st, tokens_from(d, j)[0]) is None {
            assert(mrun(st, tokens_from(d, j)) is None);
        }
    }
    if contribution(d, j).len() == 0 {
        assert(tokens_upto(d, j + 1) =~= tokens_upto(d, j));
    } else if contribution(d, j).len() == 1 {
        assert(tokens_upto(d, j + 1) =~= tokens_upto(d, j).push(contribution(d, j)[0]));
    }
}

impl Document {
    /// Serializes the document as canonical JSON bytes by walking the
    /// positions in depth-first order. The output tokenizes to exactly
    /// the document's own token stream. Numbers are emitted as their
    /// source numerals, byte for byte — not re-rendered through a
    /// double — so serialization never loses or reshapes a numeral.
    pub fn serialize(&self) -> (r: Vec<u8>)
        requires
            self.wf(),
        ensures
            tokens_of(r@) == doc_tokens(self.data()),
            r@ == crate::emitter::emitted_bytes_of(doc_tokens(self.data())),
    {
        let ghost d = self.data();
        let mut em = Emitter::new();
        let n = self.usage.len;
        proof {
            assert(n == self.len());
            assert(tokens_upto(d, 0) =~= Seq::<Token>::empty());
        }
        let mut j: usize = 0;
        while j < n
            invariant
                self.wf(),
                d == self.data(),
                n == self.len(),
                j <= n,
                emit_events(&em) == tokens_upto(d, j as int),
            decreases n - j,
        {
            let id = self.node_kind_id(j);
            proof {
                serialize_step(d, j as int);
                lemma_rank_is_count_below(self.kinds@, STRING_OPEN_ID, j as int);
                lemma_rank_is_count_below(self.kinds@, NUMBER_OPEN_ID, j as int);
                lemma_rank_is_count_below(self.kinds@, BOOLEAN_OPEN_ID, j as int);
                lemma_rank_bound(self.kinds@, self.kinds@[j as int], j as int);
            }
            if id.0 == OBJECT_OPEN_ID {
                em.begin_object();
            } else if id.0 == OBJECT_CLOSE_ID {
                em.end_object();
            } else if id.0 == ARRAY_OPEN_ID {
                em.begin_array();
            } else if id.0 == ARRAY_CLOSE_ID {
                em.end_array();
            } else if id.0 == STRING_OPEN_ID {
                let tid = match self.usage.text_id(j) {
                    Some(t) => t,
                    None => vstd::pervasive::unreached(),
                };
                let sv = self.text_usage.fetch_string(crate::textstore::TextId(tid));
                em.string_value(sv.as_str());
            } else if id.0 == NUMBER_OPEN_ID {
                let nid = match self.usage.number_id(j) {
                    Some(t) => t,
                    None => vstd::pervasive::unreached(),
                };
                proof {
                    assert(self.numbers.deep_view()[nid as int] == self.numbers@[nid as int]@);
                }
                em.number_value(self.numbers[nid].as_str());
            } else if id.0 == BOOLEAN_OPEN_ID {
                let bid = match self.usage.boolean_id(j) {
                    Some(t) => t,
                    None => vstd::pervasive::unreached(),
                };
                let bv = bitvec_get(&self.booleans, bid);
                em.bool_value(bv);
            } else if id.0 == NULL_OPEN_ID {
                em.null_value();
            } else if id.0 == STRING_CLOSE_ID || id.0 == NUMBER_CLOSE_ID || id.0
                == BOOLEAN_CLOSE_ID || id.0 == NULL_CLOSE_ID {
                proof {
                    assert(contribution(d, j as int).len() == 0);
                }
            } else {
                let is_open_name = {
                    let info = self.lookup.by_node_info_id(id);
                    info.is_open_tag && matches!(&info.node_type, NodeType::Field(_))
                };
                if is_open_name {
                    let info = self.lookup.by_node_info_id(id);
                    match &info.node_type {
                        NodeType::Field(name) => {
                            proof {
                                assert(contribution(d, j as int) =~= seq![
                                    Token::Name(name@),
                                ]);
                            }
                            em.name(name.as_str());
                        },
                        _ => {
                            proof {
                                assert(false);
                            }
                        },
                    }
                } else {
                    proof {
                        assert(contribution(d, j as int).len() == 0);
                    }
                }
            }
            j += 1;
        }
        proof {
            assert(emit_events(&em) == doc_tokens(d));
            assert(mrun(m_init(), emit_events(&em)) == Some(m_done()));
        }
        em.finish()
    }

    /// Approximate heap footprint of the frozen document, for
    /// diagnostics. The transient decompression cache is left out.
    pub fn heap_size(&self) -> usize {
        let mut total: usize = bp_heap_size(&self.tree).saturating_add(self.usage.heap_size());
        total = total.saturating_add(self.text_usage.heap_size());
        total = total.saturating_add(bitvec_heap_size(&self.booleans));
        let mut k: usize = 0;
        while k < self.numbers.len()
            decreases self.numbers@.len() - k,
        {
            total = total.saturating_add(self.numbers[k].as_str().unicode_len());
            k += 1;
        }
        total
    }
}

/// A document's serialized bytes tokenize without error, so parsing them
/// is owed to succeed: together with the lemma below, parse of serialize
/// of parse equals parse, unconditionally.
pub proof fn lemma_reparse_succeeds(d1: DocData, bytes2: Seq<u8>)
    requires
        complete_value_run(doc_tokens(d1)),
        tokens_of(bytes2) == doc_tokens(d1),
    ensures
        crate::tokens::error_free(tokens_of(bytes2)),
{
    crate::tokens::lemma_complete_error_free(doc_tokens(d1));
}


/// The data-model invariant of a well-formed document's parenthesis
/// bits: one complete subtree, so the sequence is balanced — no prefix
/// closes more than it has opened, and the whole closes everything — and
/// position 0 holds the root's opening bit.
pub proof fn lemma_document_balanced(doc: &Document)
    requires
        doc.wf(),
    ensures
        balanced_bits(doc.bits()),
        doc.bits().len() > 0,
        doc.bits()[0],
{
    lemma_subtree_balanced(bits_of(doc.data()));
}

/// The pairing invariant of a well-formed document: every opening
/// position's matching close lies within the document and carries the
/// same kind with the open flag swapped.
pub proof fn lemma_document_paired(doc: &Document)
    requires
        doc.wf(),
    ensures
        paired_range(doc.data(), 0, doc.len()),
{
}

/// Parsing a document's serialized bytes gives back a document with the
/// same token stream: the same structure, the same member names in the
/// same order, and the same string, number, and boolean values. This is
/// the round-trip law: parse of serialize of parse equals parse; and
/// since the emitted bytes are a function of the token stream alone,
/// serializing the re-parsed document reproduces the same bytes.
pub proof fn lemma_parse_serialize_parse(d1: DocData, d2: DocData, bytes2: Seq<u8>)
    requires
        complete_value_run(doc_tokens(d1)),
        tokens_of(bytes2) == doc_tokens(d1),
        complete_value_run(doc_tokens(d2)),
        doc_tokens(d2).len() <= tokens_of(bytes2).len(),
        doc_tokens(d2) == tokens_of(bytes2).take(doc_tokens(d2).len() as int),
    ensures
        doc_tokens(d2) == doc_tokens(d1),
        crate::emitter::emitted_bytes_of(doc_tokens(d2)) == crate::emitter::emitted_bytes_of(
            doc_tokens(d1),
        ),
{
    let a = doc_tokens(d1);
    let b = doc_tokens(d2);
    crate::tokens::lemma_complete_prefix_unique(a, b.len() as int);
    assert(a.take(a.len() as int) =~= a);
}


/// Dense index of a number value into the number store.
#[derive(Debug, Clone, Copy, PartialEq, Eq, Structural, Hash)]
pub struct NumberId(pub usize);

impl NumberId {
    pub fn new(id: usize) -> (r: Self)
        ensures
            r.0 == id,
    {
        NumberId(id)
    }

    pub fn id(&self) -> (r: usize)
        ensures
            r == self.0,
    {
        self.0
    }
}

/// A cursor over the elements of an array, in source order.
pub struct ArrayIterator {
    pub cur: Option<Node>,
}

/// A cursor over the member names of an object, in source order.
pub struct FieldKeyIterator {
    pub cur: Option<Node>,
}

/// A cursor over the member values of an object, in source order.
pub struct FieldValueIterator {
    pub cur: Option<Node>,
}

/// A cursor over the members of an object, in source order.
pub struct FieldEntryIterator {
    pub cur: Option<Node>,
}

/// A cursor stands on a valid opening position or is exhausted.
pub open spec fn cursor_ok(d: DocData, cur: Option<Node>) -> bool {
    cur matches Some(c) ==> c.0 < d.kinds.len() && bits_of(d)[c.0 as int]
}

impl ArrayValue {
    /// A cursor over the element values, starting at the first child.
    pub fn iter(&self, doc: &Document) -> (r: ArrayIterator)
        requires
            doc.wf(),
            self.node.0 < doc.len(),
            bits_of(doc.data())[self.node.0 as int],
        ensures
            cursor_ok(doc.data(), r.cur),
            self.node.0 + 1 < doc.len() && bits_of(doc.data())[self.node.0 + 1] ==> r.cur
                == Some(Node((self.node.0 + 1) as usize)),
            !(self.node.0 + 1 < doc.len() && bits_of(doc.data())[self.node.0 + 1]) ==> r.cur
                is None,
    {
        ArrayIterator { cur: doc.primitive_first_child(self.node) }
    }
}

impl ArrayIterator {
    /// The value under the cursor, moving the cursor to the next
    /// sibling; nothing once exhausted or off the value positions.
    pub fn next(&mut self, doc: &Document) -> (r: Option<Value>)
        requires
            doc.wf(),
            cursor_ok(doc.data(), old(self).cur),
        ensures
            cursor_ok(doc.data(), final(self).cur),
            old(self).cur is None ==> r is None && final(self).cur is None,
            old(self).cur matches Some(c) ==> ((is_value_node(doc.data(), c.0 as int) ==> (r
                matches Some(v) && v.view() == value_at(doc.data(), c.0 as int)) && (match sib_pos(
                doc.data(),
                c.0 as int,
            ) {
                Some(p) => final(self).cur == Some(Node(p as usize)),
                None => final(self).cur is None,
            })) && (!is_value_node(doc.data(), c.0 as int) ==> r is None)),
    {
        let c = match self.cur {
            None => {
                return None;
            },
            Some(c) => c,
        };
        let id = doc.node_kind_id(c.0);
        if id.0 == OBJECT_OPEN_ID || id.0 == ARRAY_OPEN_ID || id.0 == STRING_OPEN_ID || id.0
            == NUMBER_OPEN_ID || id.0 == BOOLEAN_OPEN_ID || id.0 == NULL_OPEN_ID {
            proof {
                crate::bp::lemma_fc_scan_range(bits_of(doc.data()), c.0 + 1, 1);
            }
            self.cur = doc.primitive_next_sibling(c);
            Some(doc.value(c))
        } else {
            None
        }
    }
}

impl ObjectValue {
    /// A cursor over the member names.
    pub fn keys(&self, doc: &Document) -> (r: FieldKeyIterator)
        requires
            doc.wf(),
            self.node.0 < doc.len(),
            bits_of(doc.data())[self.node.0 as int],
        ensures
            cursor_ok(doc.data(), r.cur),
            self.node.0 + 1 < doc.len() && bits_of(doc.data())[self.node.0 + 1] ==> r.cur
                == Some(Node((self.node.0 + 1) as usize)),
            !(self.node.0 + 1 < doc.len() && bits_of(doc.data())[self.node.0 + 1]) ==> r.cur
                is None,
    {
        FieldKeyIterator { cur: doc.primitive_first_child(self.node) }
    }

    /// A cursor over the member values.
    pub fn values(&self, doc: &Document) -> (r: FieldValueIterator)
        requires
            doc.wf(),
            self.node.0 < doc.len(),
            bits_of(doc.data())[self.node.0 as int],
        ensures
            cursor_ok(doc.data(), r.cur),
            self.node.0 + 1 < doc.len() && bits_of(doc.data())[self.node.0 + 1] ==> r.cur
                == Some(Node((self.node.0 + 1) as usize)),
            !(self.node.0 + 1 < doc.len() && bits_of(doc.data())[self.node.0 + 1]) ==> r.cur
                is None,
    {
        FieldValueIterator { cur: doc.primitive_first_child(self.node) }
    }

    /// A cursor over the members, names and values together.
    pub fn iter(&self, doc: &Document) -> (r: FieldEntryIterator)
        requires
            doc.wf(),
            self.node.0 < doc.len(),
            bits_of(doc.data())[self.node.0 as int],
        ensures
            cursor_ok(doc.data(), r.cur),
            self.node.0 + 1 < doc.len() && bits_of(doc.data())[self.node.0 + 1] ==> r.cur
                == Some(Node((self.node.0 + 1) as usize)),
            !(self.node.0 + 1 < doc.len() && bits_of(doc.data())[self.node.0 + 1]) ==> r.cur
                is None,
    {
        FieldEntryIterator { cur: doc.primitive_first_child(self.node) }
    }
}

/// The name of the field at a field-open position, and a step of the
/// member chain: shared by the three object cursors.
fn field_step(doc: &Document, c: Node) -> (r: Option<(String, Option<Node>)>)
    requires
        doc.wf(),
        c.0 < doc.len(),
        bits_of(doc.data())[c.0 as int],
    ensures
        is_field_open(doc.data(), c.0 as int) ==> (r matches Some(p) && p.0@ == field_name(
            doc.data().infos[doc.data().kinds[c.0 as int] as int],
        ) && (match sib_pos(doc.data(), c.0 as int) {
            Some(q) => p.1 == Some(Node(q as usize)),
            None => p.1 is None,
        })),
        !is_field_open(doc.data(), c.0 as int) ==> r is None,
        r matches Some(p) ==> cursor_ok(doc.data(), p.1),
{
    let ghost d = doc.data();
    let id = doc.node_kind_id(c.0);
    let name = {
        let info = doc.lookup.by_node_info_id(id);
        if !info.is_open_tag {
            proof {
                assert(!is_field_open(d, c.0 as int));
            }
            return None;
        }
        match &info.node_type {
            NodeType::Field(name) => clone_str(name),
            _ => {
                proof {
                    if id.0 >= crate::kinds::FIXED_KIND_COUNT {
                        assert(!(doc.lookup.infos()[id.0 as int].kind is Field));
                    } else {
                        assert(doc.lookup.infos()[id.0 as int] == crate::kinds::fixed_info(id.0));
                    }
                    assert(!is_field_open(d, c.0 as int));
                }
                return None;
            },
        }
    };
    proof {
        if id.0 < crate::kinds::FIXED_KIND_COUNT {
            assert(doc.lookup.infos()[id.0 as int] == crate::kinds::fixed_info(id.0));
            assert(!(doc.lookup.infos()[id.0 as int].kind is Field));
        }
        assert(is_field_open(d, c.0 as int));
    }
    proof {
        crate::bp::lemma_fc_scan_range(bits_of(d), c.0 + 1, 1);
    }
    let nxt = doc.primitive_next_sibling(c);
    Some((name, nxt))
}

impl FieldKeyIterator {
    /// The member name under the cursor, advancing to the next member.
    pub fn next(&mut self, doc: &Document) -> (r: Option<String>)
        requires
            doc.wf(),
            cursor_ok(doc.data(), old(self).cur),
        ensures
            cursor_ok(doc.data(), final(self).cur),
            old(self).cur is None ==> r is None && final(self).cur is None,
            old(self).cur matches Some(c) ==> ((is_field_open(doc.data(), c.0 as int) ==> (r
                matches Some(s) && s@ == field_name(
                doc.data().infos[doc.data().kinds[c.0 as int] as int],
            )) && (match sib_pos(doc.data(), c.0 as int) {
                Some(p) => final(self).cur == Some(Node(p as usize)),
                None => final(self).cur is None,
            })) && (!is_field_open(doc.data(), c.0 as int) ==> r is None)),
    {
        let c = match self.cur {
            None => {
                return None;
            },
            Some(c) => c,
        };
        match field_step(doc, c) {
            Some((name, nxt)) => {
                self.cur = nxt;
                Some(name)
            },
            None => None,
        }
    }
}

impl FieldValueIterator {
    /// The member value under the cursor, advancing to the next member.
    pub fn next(&mut self, doc: &Document) -> (r: Option<Value>)
        requires
            doc.wf(),
            cursor_ok(doc.data(), old(self).cur),
        ensures
            cursor_ok(doc.data(), final(self).cur),
            old(self).cur is None ==> r is None && final(self).cur is None,
            old(self).cur matches Some(c) ==> (is_field_open(doc.data(), c.0 as int) && c.0 + 1
                < doc.len() && is_value_node(doc.data(), c.0 + 1) && bits_of(doc.data())[c.0 + 1]
                ==> (r matches Some(v) && v.view() == value_at(doc.data(), c.0 + 1)) && (
            match sib_pos(doc.data(), c.0 as int) {
                Some(p) => final(self).cur == Some(Node(p as usize)),
                None => final(self).cur is None,
            })),
    {
        let c = match self.cur {
            None => {
                return None;
            },
            Some(c) => c,
        };
        match field_step(doc, c) {
            Some((_, nxt)) => {
                match doc.primitive_first_child(c) {
                    Some(vn) => {
                        let vid = doc.node_kind_id(vn.0);
                        if vid.0 == OBJECT_OPEN_ID || vid.0 == ARRAY_OPEN_ID || vid.0
                            == STRING_OPEN_ID || vid.0 == NUMBER_OPEN_ID || vid.0
                            == BOOLEAN_OPEN_ID || vid.0 == NULL_OPEN_ID {
                            self.cur = nxt;
                            Some(doc.value(vn))
                        } else {
                            None
                        }
                    },
                    None => None,
                }
            },
            None => None,
        }
    }
}

impl FieldEntryIterator {
    /// The member name and value under the cursor, advancing to the next
    /// member.
    pub fn next(&mut self, doc: &Document) -> (r: Option<(String, Value)>)
        requires
            doc.wf(),
            cursor_ok(doc.data(), old(self).cur),
        ensures
            cursor_ok(doc.data(), final(self).cur),
            old(self).cur is None ==> r is None && final(self).cur is None,
            old(self).cur matches Some(c) ==> (is_field_open(doc.data(), c.0 as int) && c.0 + 1
                < doc.len() && is_value_node(doc.data(), c.0 + 1) && bits_of(doc.data())[c.0 + 1]
                ==> (r matches Some(p) && p.0@ == field_name(
                doc.data().infos[doc.data().kinds[c.0 as int] as int],
            ) && p.1.view() == value_at(doc.data(), c.0 + 1)) && (match sib_pos(
                doc.data(),
                c.0 as int,
            ) {
                Some(q) => final(self).cur == Some(Node(q as usize)),
                None => final(self).cur is None,
            })),
    {
        let c = match self.cur {
            None => {
                return None;
            },
            Some(c) => c,
        };
        match field_step(doc, c) {
            Some((name, nxt)) => {
                match doc.primitive_first_child(c) {
                    Some(vn) => {
                        let vid = doc.node_kind_id(vn.0);
                        if vid.0 == OBJECT_OPEN_ID || vid.0 == ARRAY_OPEN_ID || vid.0
                            == STRING_OPEN_ID || vid.0 == NUMBER_OPEN_ID || vid.0
                            == BOOLEAN_OPEN_ID || vid.0 == NULL_OPEN_ID {
                            self.cur = nxt;
                            Some((name, doc.value(vn)))
                        } else {
                            None
                        }
                    },
                    None => None,
                }
            },
            None => None,
        }
    }
}

} // verus!

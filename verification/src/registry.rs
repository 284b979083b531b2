use vstd::prelude::*;
use crate::kinds::{
    fixed_info, InfoV, KindV, NodeInfo, NodeInfoId, NodeType, ARRAY_CLOSE_ID, ARRAY_OPEN_ID,
    BOOLEAN_CLOSE_ID, BOOLEAN_OPEN_ID, FIXED_KIND_COUNT, NULL_CLOSE_ID, NULL_OPEN_ID,
    NUMBER_CLOSE_ID, NUMBER_OPEN_ID, OBJECT_CLOSE_ID, OBJECT_OPEN_ID, STRING_CLOSE_ID,
    STRING_OPEN_ID,
};

verus! {

/// Interns node kinds, assigning each distinct kind a dense identifier.
/// The twelve fixed kinds always occupy the identifiers 0 to 11 so the
/// hot path can compare identifiers directly.
pub struct NodeLookup {
    pub node_infos: Vec<NodeInfo>,
}

impl NodeLookup {
    /// The registered kinds, in identifier order.
    pub open spec fn infos(&self) -> Seq<InfoV> {
        self.node_infos@.map(|_i: int, n: NodeInfo| n.view())
    }

    pub open spec fn wf(&self) -> bool {
        &&& self.infos().len() >= FIXED_KIND_COUNT
        &&& self.infos().len() <= usize::MAX
        &&& forall|i: int|
            0 <= i < FIXED_KIND_COUNT ==> #[trigger] self.infos()[i] == fixed_info(i as u64)
        &&& forall|a: int, b: int|
            0 <= a < b < self.infos().len() ==> self.infos()[a] != self.infos()[b]
    }

    /// A fresh registry holding exactly the twelve fixed kinds.
    pub fn new() -> (r: NodeLookup)
        ensures
            r.wf(),
            r.infos().len() == FIXED_KIND_COUNT,
    {
        let mut node_infos: Vec<NodeInfo> = Vec::new();
        node_infos.push(NodeInfo::open(NodeType::Object));
        node_infos.push(NodeInfo::close(NodeType::Object));
        node_infos.push(NodeInfo::open(NodeType::Array));
        node_infos.push(NodeInfo::close(NodeType::Array));
        node_infos.push(NodeInfo::open(NodeType::String));
        node_infos.push(NodeInfo::close(NodeType::String));
        node_infos.push(NodeInfo::open(NodeType::Number));
        node_infos.push(NodeInfo::close(NodeType::Number));
        node_infos.push(NodeInfo::open(NodeType::Boolean));
        node_infos.push(NodeInfo::close(NodeType::Boolean));
        node_infos.push(NodeInfo::open(NodeType::Null));
        node_infos.push(NodeInfo::close(NodeType::Null));
        let r = NodeLookup { node_infos };
        proof {
            assert forall|i: int| 0 <= i < FIXED_KIND_COUNT implies #[trigger] r.infos()[i]
                == fixed_info(i as u64) by {
                assert(r.infos()[i] == r.node_infos@[i].view());
            }
            assert forall|a: int, b: int|
                0 <= a < b < r.infos().len() implies r.infos()[a] != r.infos()[b] by {
                assert(r.infos()[a] == fixed_info(a as u64));
                assert(r.infos()[b] == fixed_info(b as u64));
            }
        }
        r
    }

    /// Number of registered kinds.
    pub fn len(&self) -> (r: usize)
        ensures
            r == self.infos().len(),
    {
        self.node_infos.len()
    }

    /// Interns a kind: a kind already seen keeps its identifier, a new
    /// kind receives the next free one.
    pub fn register(&mut self, node_info: NodeInfo) -> (r: NodeInfoId)
        requires
            old(self).wf(),
        ensures
            final(self).wf(),
            r.0 < final(self).infos().len(),
            final(self).infos()[r.0 as int] == node_info.view(),
            old(self).infos().contains(node_info.view()) ==> final(self).infos() == old(
                self,
            ).infos(),
            !old(self).infos().contains(node_info.view()) ==> final(self).infos() == old(
                self,
            ).infos().push(node_info.view()) && r.0 == old(self).infos().len(),
    {
        if let Some(idx) = self.register_fast_path(&node_info) {
            proof {
                assert(self.infos().contains(node_info.view()));
            }
            return idx;
        }
        self.register_lookup(node_info)
    }

    /// Identifier of one of the twelve fixed kinds, without a scan.
    fn register_fast_path(&self, node_info: &NodeInfo) -> (r: Option<NodeInfoId>)
        requires
            self.wf(),
        ensures
            r matches Some(id) ==> id.0 < FIXED_KIND_COUNT && self.infos()[id.0 as int]
                == node_info.view(),
            r is None ==> node_info.view().kind is Field,
    {
        let id = match (node_info.is_open_tag, &node_info.node_type) {
            (true, NodeType::Object) => OBJECT_OPEN_ID,
            (false, NodeType::Object) => OBJECT_CLOSE_ID,
            (true, NodeType::Array) => ARRAY_OPEN_ID,
            (false, NodeType::Array) => ARRAY_CLOSE_ID,
            (true, NodeType::String) => STRING_OPEN_ID,
            (false, NodeType::String) => STRING_CLOSE_ID,
            (true, NodeType::Number) => NUMBER_OPEN_ID,
            (false, NodeType::Number) => NUMBER_CLOSE_ID,
            (true, NodeType::Boolean) => BOOLEAN_OPEN_ID,
            (false, NodeType::Boolean) => BOOLEAN_CLOSE_ID,
            (true, NodeType::Null) => NULL_OPEN_ID,
            (false, NodeType::Null) => NULL_CLOSE_ID,
            (_, NodeType::Field(_)) => {
                return None;
            },
        };
        Some(NodeInfoId(id))
    }

    /// Interns a kind by scanning the registered kinds in order.
    pub fn register_lookup(&mut self, node_info: NodeInfo) -> (r: NodeInfoId)
        requires
            old(self).wf(),
        ensures
            final(self).wf(),
            r.0 < final(self).infos().len(),
            final(self).infos()[r.0 as int] == node_info.view(),
            old(self).infos().contains(node_info.view()) ==> final(self).infos() == old(
                self,
            ).infos(),
            !old(self).infos().contains(node_info.view()) ==> final(self).infos() == old(
                self,
            ).infos().push(node_info.view()) && r.0 == old(self).infos().len(),
    {
        let ghost x = node_info.view();
        let n = self.node_infos.len();
        let mut j: usize = 0;
        while j < n
            invariant
                self == old(self),
                self.wf(),
                n == self.infos().len(),
                j <= n,
                forall|a: int| 0 <= a < j ==> self.infos()[a] != x,
                x == node_info.view(),
            decreases n - j,
        {
            if self.node_infos[j].eq_info(&node_info) {
                proof {
                    assert(self.infos()[j as int] == x);
                }
                return NodeInfoId(j as u64);
            }
            j += 1;
        }
        proof {
            assert(!self.infos().contains(x)) by {
                if self.infos().contains(x) {
                    let w = choose|w: int| 0 <= w < self.infos().len() && self.infos()[w] == x;
                    assert(self.infos()[w] != x);
                }
            }
        }
        let idx = NodeInfoId(n as u64);
        self.node_infos.push(node_info);
        proof {
            vstd::std_specs::vec::axiom_spec_len(&self.node_infos);
            assert(self.infos() =~= old(self).infos().push(x));
            assert forall|i: int| 0 <= i < FIXED_KIND_COUNT implies #[trigger] self.infos()[i]
                == fixed_info(i as u64) by {
                assert(self.infos()[i] == old(self).infos()[i]);
            }
            assert forall|a: int, b: int|
                0 <= a < b < self.infos().len() implies self.infos()[a] != self.infos()[b] by {
                if b < self.infos().len() - 1 {
                    assert(old(self).infos()[a] != old(self).infos()[b]);
                } else {
                    assert(self.infos()[a] == old(self).infos()[a]);
                }
            }
        }
        idx
    }

    /// Interns the open and the close kind for a field name at once and
    /// returns both identifiers, open first.
    pub fn register_field_ids(&mut self, name: &str) -> (r: (NodeInfoId, NodeInfoId))
        requires
            old(self).wf(),
        ensures
            final(self).wf(),
            old(self).infos().len() <= final(self).infos().len(),
            forall|i: int|
                0 <= i < old(self).infos().len() ==> #[trigger] final(self).infos()[i] == old(
                    self,
                ).infos()[i],
            final(self).infos().len() <= old(self).infos().len() + 2,
            r.0.0 < final(self).infos().len(),
            r.1.0 < final(self).infos().len(),
            final(self).infos()[r.0.0 as int] == (InfoV { kind: KindV::Field(name@), open: true }),
            final(self).infos()[r.1.0 as int] == (InfoV { kind: KindV::Field(name@), open: false }),
    {
        let open_info = NodeInfo::open(NodeType::Field(name.to_owned()));
        let close_info = NodeInfo::close(NodeType::Field(name.to_owned()));
        let open_id = self.register(open_info);
        let close_id = self.register(close_info);
        (open_id, close_id)
    }

    /// Looks a kind up without interning it.
    pub fn by_node_info(&self, node_info: &NodeInfo) -> (r: Option<NodeInfoId>)
        requires
            self.wf(),
        ensures
            r matches Some(id) ==> id.0 < self.infos().len() && self.infos()[id.0 as int]
                == node_info.view(),
            r is None ==> !self.infos().contains(node_info.view()),
    {
        let n = self.node_infos.len();
        let mut j: usize = 0;
        while j < n
            invariant
                self.wf(),
                n == self.infos().len(),
                j <= n,
                forall|a: int| 0 <= a < j ==> self.infos()[a] != node_info.view(),
            decreases n - j,
        {
            if self.node_infos[j].eq_info(node_info) {
                proof {
                    assert(self.infos()[j as int] == node_info.view());
                }
                return Some(NodeInfoId(j as u64));
            }
            j += 1;
        }
        proof {
            if self.infos().contains(node_info.view()) {
                let w = choose|w: int|
                    0 <= w < self.infos().len() && self.infos()[w] == node_info.view();
                assert(self.infos()[w] != node_info.view());
            }
        }
        None
    }

    /// The kind registered under an identifier.
    pub fn by_node_info_id(&self, node_info_id: NodeInfoId) -> (r: &NodeInfo)
        requires
            self.wf(),
            node_info_id.0 < self.infos().len(),
        ensures
            r.view() == self.infos()[node_info_id.0 as int],
    {
        proof {
            vstd::std_specs::vec::axiom_spec_len(&self.node_infos);
        }
        &self.node_infos[node_info_id.0 as usize]
    }
}

/// Equal kinds always receive equal identifiers: the registry never holds
/// one kind under two identifiers.
pub proof fn lemma_register_deterministic(l: &NodeLookup, a: int, b: int)
    requires
        l.wf(),
        0 <= a < l.infos().len(),
        0 <= b < l.infos().len(),
        l.infos()[a] == l.infos()[b],
    ensures
        a == b,
{
}

} // verus!

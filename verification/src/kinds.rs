use vstd::prelude::*;

verus! {

/// Dense identifier of a registered node kind.
#[derive(Debug, Clone, Copy, PartialEq, Eq, Structural, Hash)]
pub struct NodeInfoId(pub u64);

impl NodeInfoId {
    pub fn new(id: u64) -> (r: Self)
        ensures
            r.0 == id,
    {
        NodeInfoId(id)
    }

    pub fn id(&self) -> (r: u64)
        ensures
            r == self.0,
    {
        self.0
    }
}

pub const OBJECT_OPEN_ID: u64 = 0;
pub const OBJECT_CLOSE_ID: u64 = 1;
pub const ARRAY_OPEN_ID: u64 = 2;
pub const ARRAY_CLOSE_ID: u64 = 3;
pub const STRING_OPEN_ID: u64 = 4;
pub const STRING_CLOSE_ID: u64 = 5;
pub const NUMBER_OPEN_ID: u64 = 6;
pub const NUMBER_CLOSE_ID: u64 = 7;
pub const BOOLEAN_OPEN_ID: u64 = 8;
pub const BOOLEAN_CLOSE_ID: u64 = 9;
pub const NULL_OPEN_ID: u64 = 10;
pub const NULL_CLOSE_ID: u64 = 11;

/// Number of kind identifiers with a fixed, registry-independent value.
pub const FIXED_KIND_COUNT: u64 = 12;

/// The kind of a node in the document tree. Field kinds carry the
/// object member name they stand for.
#[derive(Debug, Clone, Eq, Hash)]
pub enum NodeType {
    Object,
    Array,
    String,
    Number,
    Boolean,
    Null,
    Field(String),
}

/// Mathematical image of a `NodeType`.
pub enum KindV {
    Object,
    Array,
    String,
    Number,
    Boolean,
    Null,
    Field(Seq<char>),
}

impl NodeType {
    pub open spec fn view(&self) -> KindV {
        match self {
            NodeType::Object => KindV::Object,
            NodeType::Array => KindV::Array,
            NodeType::String => KindV::String,
            NodeType::Number => KindV::Number,
            NodeType::Boolean => KindV::Boolean,
            NodeType::Null => KindV::Null,
            NodeType::Field(name) => KindV::Field(name@),
        }
    }

    pub fn eq_type(&self, other: &NodeType) -> (r: bool)
        ensures
            r == (self.view() == other.view()),
    {
        match (self, other) {
            (NodeType::Object, NodeType::Object) => true,
            (NodeType::Array, NodeType::Array) => true,
            (NodeType::String, NodeType::String) => true,
            (NodeType::Number, NodeType::Number) => true,
            (NodeType::Boolean, NodeType::Boolean) => true,
            (NodeType::Null, NodeType::Null) => true,
            (NodeType::Field(a), NodeType::Field(b)) => a.eq(b),
            _ => false,
        }
    }
}

impl PartialEq for NodeType {
    fn eq(&self, other: &Self) -> (r: bool) {
        self.eq_type(other)
    }
}

impl vstd::std_specs::cmp::PartialEqSpecImpl for NodeType {
    open spec fn obeys_eq_spec() -> bool {
        true
    }

    open spec fn eq_spec(&self, other: &Self) -> bool {
        self.view() == other.view()
    }
}

/// A node kind together with whether it stands for the opening or the
/// closing position of the node.
#[derive(Debug, Clone, Eq, Hash)]
pub struct NodeInfo {
    pub node_type: NodeType,
    pub is_open_tag: bool,
}

/// Mathematical image of a `NodeInfo`.
pub struct InfoV {
    pub kind: KindV,
    pub open: bool,
}

impl NodeInfo {
    pub open spec fn view(&self) -> InfoV {
        InfoV { kind: self.node_type.view(), open: self.is_open_tag }
    }

    pub fn open(node_type: NodeType) -> (r: Self)
        ensures
            r.view() == (InfoV { kind: node_type.view(), open: true }),
    {
        NodeInfo { node_type, is_open_tag: true }
    }

    pub fn close(node_type: NodeType) -> (r: Self)
        ensures
            r.view() == (InfoV { kind: node_type.view(), open: false }),
    {
        NodeInfo { node_type, is_open_tag: false }
    }

    pub fn eq_info(&self, other: &NodeInfo) -> (r: bool)
        ensures
            r == (self.view() == other.view()),
    {
        let r = self.is_open_tag == other.is_open_tag && self.node_type.eq_type(&other.node_type);
        proof {
            if r {
                assert(self.view() == other.view());
            }
        }
        r
    }
}

impl PartialEq for NodeInfo {
    fn eq(&self, other: &Self) -> (r: bool) {
        self.eq_info(other)
    }
}

impl vstd::std_specs::cmp::PartialEqSpecImpl for NodeInfo {
    open spec fn obeys_eq_spec() -> bool {
        true
    }

    open spec fn eq_spec(&self, other: &Self) -> bool {
        self.view() == other.view()
    }
}

/// The twelve fixed kinds, in the order of their identifiers.
pub open spec fn fixed_info(id: u64) -> InfoV {
    let kind = if id / 2 == 0 {
        KindV::Object
    } else if id / 2 == 1 {
        KindV::Array
    } else if id / 2 == 2 {
        KindV::String
    } else if id / 2 == 3 {
        KindV::Number
    } else if id / 2 == 4 {
        KindV::Boolean
    } else {
        KindV::Null
    };
    InfoV { kind, open: id % 2 == 0 }
}

} // verus!

pub mod bits;
pub mod bp;
pub mod cache;
pub mod compress;
pub mod document;
pub mod emitter;
pub mod tokenizer;
pub mod kinds;
pub mod registry;
pub mod sparse;
pub mod spec_util;
pub mod textstore;
pub mod tokens;
pub mod usage_builders;
pub mod usage_index;

pub use document::{
    ArrayIterator, ArrayValue, Document, FieldEntryIterator, FieldKeyIterator, FieldValueIterator,
    NumberId, ObjectValue, Value,
};
pub use kinds::{NodeInfo, NodeInfoId, NodeType};
pub use registry::NodeLookup;
pub use textstore::{BlockId, StorageStats, TextId, TextUsage, TextUsageBuilder};
pub use tokenizer::JsonParseError;
pub use usage_builders::{BitpackingUsageBuilder, Packed, RoaringUsageBuilder};
pub use usage_index::NodeInfoVec;

use vstd::prelude::*;

verus! {

/// Index of a node position in the parenthesis sequence.
#[derive(Debug, Clone, Copy, PartialEq, Eq, Structural, Hash)]
pub struct Node(pub usize);

impl Node {
    pub fn new(index: usize) -> (r: Self)
        ensures
            r.0 == index,
    {
        Node(index)
    }

    pub fn get(&self) -> (r: usize)
        ensures
            r == self.0,
    {
        self.0
    }
}

} // verus!

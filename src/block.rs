use vstd::prelude::*;

verus! {

/// The smallest unit of storage: an identity and a payload.
///
/// Identity 0 is reserved for dummy blocks, which only pad buckets.
#[derive(Clone, Copy, Debug, PartialEq, Eq, Structural)]
pub struct Block {
    pub block_id: u32,
    pub data: u32,
}

impl Block {
    /// A block that carries no identity.
    pub open spec fn is_dummy(self) -> bool {
        self.block_id == 0
    }

    /// Builds the dummy filler block.
    pub fn dummy() -> (r: Block)
        ensures
            r.is_dummy(),
            r.data == 0,
    {
        Block { block_id: 0, data: 0 }
    }
}

} // verus!

use vstd::prelude::*;

verus! {

/// Failures of the ORAM and of its buckets.
#[derive(Clone, Copy, Debug, PartialEq, Eq, Structural)]
pub enum OramError {
    /// A zero block count or bucket capacity, a block count too large for
    /// 32-bit leaves, or more real blocks than a bucket holds.
    InvalidConfiguration,
    /// A block id outside `1..=num_blocks`.
    UnknownBlock,
    /// The placement invariant was found broken.
    Corruption,
}

} // verus!

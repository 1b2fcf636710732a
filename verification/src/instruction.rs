//! The operations a caller can submit to the accumulator.

use vstd::prelude::*;

verus! {

/// One submitted operation.
#[derive(Clone, Debug)]
pub enum MTreeInstruction {
    /// Insert the given raw leaf payload.
    InsertLeaf(Vec<u8>),
}

} // verus!

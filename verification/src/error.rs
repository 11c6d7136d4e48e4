//! The ways in which an allocation can fail.

use vstd::prelude::*;

verus! {

/// Why no allocation report could be produced.
#[derive(Clone, Copy, Debug, PartialEq, Eq, Structural)]
pub enum AllocationError {
    /// A request needs a block that 32-bit address arithmetic cannot hold.
    OutOfRange,
    /// The blocks together need more addresses than the parent network has.
    AddressSpaceExhausted,
}

} // verus!

//! The ways a call into the kernel can be refused.

use vstd::prelude::*;

verus! {

/// Why the kernel did not do what it was asked.
#[derive(Clone, Copy, Debug, PartialEq, Eq, Structural)]
pub enum KernelError {
    /// A length or an index does not fit the buffers that came with it.
    InvalidArgument,
    /// A running sum left the range of a sample.
    Overflow,
}

} // verus!

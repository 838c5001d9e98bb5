//! The ways in which building or consuming a container can fail.

use vstd::prelude::*;

verus! {

/// Why an operation on a container was refused.
#[derive(Clone, Copy, Debug, PartialEq, Eq, Structural)]
pub enum Error {
    /// The leading four bytes are not the magic tag, or the offset table
    /// holds a member that ends before it starts.
    InvalidFormat,
    /// The requested member index is not below the member count.
    IndexOutOfRange { index: u32, count: u32 },
    /// More members were offered than a 32-bit count can hold.
    TooManyFiles { found: usize },
    /// Fewer bytes were available than the layout calls for.
    IoFailure,
    /// The member bodies are together longer than an offset, or the memory
    /// that was to hold the container, can express.
    TooLarge,
}

} // verus!

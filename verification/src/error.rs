//! The ways in which a request on the buffer can be turned down.

use vstd::prelude::*;

verus! {

/// Why an operation on a ring buffer did not take place.
///
/// None of these is fatal: the buffer is left as it was and the caller
/// decides what to do next.
#[derive(Debug, Clone, Copy, PartialEq, Eq)]
pub enum RingBufferError {
    /// An element was offered while every slot held a live element.
    Full,
    /// More elements were asked for than the buffer holds.
    BeyondRange,
    /// The elements asked for do not lie in one piece of the backing array:
    /// the window runs past the array's end and continues at its start.
    BufferIncomplete,
}

} // verus!

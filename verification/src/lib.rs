//! A fixed-capacity ring buffer over a statically sized array.
//!
//! The buffer never allocates and never grows: its capacity is a const
//! generic parameter. Elements leave in the order in which they entered.
//! Every operation is verified against a ghost model of the cursors and
//! slots ([`state::RingState`]) and against the queue of live elements that
//! this model stands for.

pub mod error;
pub mod state;
pub mod buffer;
pub mod laws;

pub use buffer::RingBuffer;
pub use error::RingBufferError;

//! A bounded ring buffer that relays items from a producer to a consumer,
//! the decisions of the relay loops around it, and the parser for the
//! buffer size given on the command line.

pub mod relay;
pub mod ringbuffer;
pub mod size;

pub use ringbuffer::RingBuffer;

//! A fixed-capacity, allocation-free FIFO queue over a contiguous storage
//! region, implemented as a circular buffer with verified index arithmetic,
//! occupancy queries, enqueue/dequeue, bulk clearing, and in-place
//! order-preserving filtered compaction.

pub mod buffer;
pub mod laws;

pub use buffer::RingBuffer;

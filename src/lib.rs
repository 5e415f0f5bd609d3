//! Block-based linear convolution with an exactly specified integer engine,
//! together with the ring buffer and channel helpers used around it.
pub mod accumulation;
pub mod fast_convolver;
pub mod laws;
pub mod partition;
pub mod ring_buffer;
pub mod signal;
pub mod utils;

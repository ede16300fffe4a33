//! The transformer's control flow: which step happens to which sequence, when.
//!
//! The numeric kernels run outside. What stands here is everything they are told
//! to do: positions, attention windows, the order of cache writes and reads, which
//! biases, adapters and norms apply, when generation stops.
pub mod config;
pub mod execution;
pub mod forward;
pub mod generate;
pub mod meaning;
pub mod rotary;
pub mod speculative;
pub mod weights;

//! The runners: ways to take an input through the aggregation.
pub mod baseline;
pub mod bigbuf;
pub mod chunks;
pub mod parallel_chunks;

pub use baseline::Runner as Baseline;
pub use bigbuf::Runner as BigBuf;
pub use chunks::Runner as Chunks;
pub use parallel_chunks::Runner as ParallelChunks;

//! Streaming data sketches: Theta, Count-Min, Frequent-Items and HyperLogLog
//! register storage, with the byte codecs that their wire formats share.
pub mod error;
pub mod codec;
pub mod bit_pack;
pub mod hash;
pub mod probe;
pub mod frequencies;
pub mod countmin;
pub mod cpc;
pub mod hll;
pub mod theta;

pub use theta::ResizeFactor;

//! Theta sketch: distinct counting by keeping the hashes below an adaptive threshold θ.
pub mod compact;
pub mod hash_table;
pub mod sketch;

pub use self::compact::CompactThetaSketch;
pub use self::sketch::ResizeFactor;
pub use self::sketch::ThetaSketch;
pub use self::sketch::ThetaSketchBuilder;

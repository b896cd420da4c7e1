//! Count-Min sketch: approximate frequencies from a `d x w` matrix of counters.
pub mod sketch;
pub mod value;

pub use self::sketch::CountMinSketch;
pub use self::value::CountMinValue;

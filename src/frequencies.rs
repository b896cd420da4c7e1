//! Frequent-Items sketch: approximate heavy hitters over a stream of weighted items, with
//! deterministic upper and lower bounds on each item's count.
pub mod reverse_purge_item_hash_map;
pub mod serde;
pub mod sketch;

pub use self::sketch::ErrorType;
pub use self::sketch::FrequentItemsSketch;
pub use self::sketch::Row;

pub use crate::hash::HashInput as FrequentItemValue;

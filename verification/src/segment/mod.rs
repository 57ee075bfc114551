pub mod bounds;
pub mod edit;
pub mod import;
pub mod keys;
pub mod model;
pub mod nav;
pub mod nav_laws;
pub mod ops;
pub mod point;
pub mod search;
pub mod set;
pub mod span;
pub mod total;

pub use import::ImportError;
pub use keys::{Gap, MaybeRange, Seg, SegOrGap};
pub use ops::{SegmentDataSlices, SetOperations};
pub use search::{CHUNK_MASK, CHUNK_SHIFT, CHUNK_SIZE, MAX_PAGE};
pub use set::SegmentSet;

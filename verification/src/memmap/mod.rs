pub mod laws;
pub mod mappable;
pub mod mapping_set;
pub mod mmap_opts;

pub use mappable::{InvalidateOpts, Translation};
pub use mapping_set::{
    Invalidation, MappingOfRange, MappingSet, MappingSetOperations, MappingsOfRange,
};
pub use mmap_opts::{MLockMode, MmapOpts};

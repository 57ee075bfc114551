pub mod area_laws;
pub mod change_laws;
pub mod fill;
pub mod find;
pub mod find_laws;
pub mod hosts;
pub mod io;
pub mod io_laws;
pub mod laws;
pub mod layout;
pub mod limit_laws;
pub mod manager;
pub mod memory_laws;
pub mod mmap;
pub mod place;
pub mod pma;
pub mod protect;
pub mod refs;
pub mod remap;
pub mod remap_laws;
pub mod replace;
pub mod shift;
pub mod special;
pub mod transfer;
pub mod unmap;
pub mod vec_io;
pub mod vma;
pub mod walk;
pub mod walk_laws;

pub use layout::{MmapDirection, MmapLayout};
pub use manager::{Effect, Env, MemoryManager, Outbox};
pub use pma::{Pma, PmaSet, PmaSetOperations};
pub use place::Placement;
pub use refs::{FileRefcountSet, FileRefcountSetOperations, PrivateRefs, Refcount};
pub use special::SpecialMappable;
pub use vma::{NumaPolicy, Vma, VmaSet, VmaSetOperations};

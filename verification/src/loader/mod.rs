pub mod auxv;
pub mod elf;
pub mod laws;
pub mod path;
pub mod place;
pub mod place_laws;
pub mod script;
pub mod start_laws;
pub mod vdso;
pub mod vdso_laws;

pub use auxv::Auxv;
pub use elf::{ElfImage, ProgramHeader};
pub use place::{LoadStep, LoadedElf};
pub use vdso::Vdso;

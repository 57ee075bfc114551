pub mod access;
pub mod addr;
pub mod block;
pub mod bytes;
pub mod errno;
pub mod kernel;
pub mod loader;
pub mod memmap;
pub mod mm;
pub mod net;
pub mod notify;
pub mod pgalloc;
pub mod pgalloc_laws;
pub mod platform;
pub mod random;
pub mod range;
pub mod sandbox;
pub mod segment;
pub mod text;

pub mod epoll;
pub mod fd_table;
pub mod host;
pub mod iovec;
pub mod laws;
pub mod pipe;
pub mod signal;
pub mod task;
pub mod task_image;
pub mod task_laws;
pub mod uts_namespace;
pub mod version;

pub use epoll::EventPoll;
pub use fd_table::{Descriptor, FdFlags, FdTable};
pub use host::Kernel;
pub use pipe::Pipe;
pub use task::{ExitStatus, Task};
pub use task_image::{MemoryManagerState, TaskImage};
pub use uts_namespace::UtsNameSpace;
pub use version::KernelVersion;

pub mod access;
pub mod capabilities;
pub mod laws;
pub mod network;
pub mod oci;
pub mod output;
pub mod plan;
pub mod run_laws;
pub mod trace;

pub use access::{can_access_file, AccessRequest, FilePermissions, PermMask};
pub use capabilities::{drop_privileges, set_capabilities, CapSet, CapStep};
pub use oci::get_cgroup_path;
pub use output::{get_stderr, get_stdout, OutputError};

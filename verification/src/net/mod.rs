pub mod endpoint;
pub mod laws;
pub mod options;
pub mod ports;
pub mod socket;
pub mod wait;

pub use endpoint::{address_and_family, Endpoint, IpAddress, IpEndpoint};
pub use options::{OptAction, OptQuery, Settings};
pub use ports::LocalPorts;
pub use socket::{Socket, SocketKind, SocketStep};
pub use wait::Flow;

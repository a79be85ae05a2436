//! Broker core of a reverse-tunnel relay: the frame protocol, the
//! connection-identifier convention, the registry of live agents, the
//! router, the certificate gate and the per-transport session state machine.
pub mod agent;
pub mod certgate;
pub mod codec;
pub mod conn;
pub mod frame;
pub mod registry;
pub mod router;
pub mod session;

pub use frame::Frame;

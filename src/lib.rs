//! Privilege separation: a privileged parent and sandboxed children derived
//! from one executable, talking over UNIX socket pairs with typed, framed
//! messages that may carry a file descriptor.
//!
//! This crate holds the logic of that runtime: the byte layout of control
//! messages, the message framer, and the topology and lifecycle decisions.
//! Sockets, `fork`, `exec` and credential changes are performed by the
//! caller with the values these functions compute.

pub mod ancillary;
pub mod error;
pub mod imsg;
pub mod process;
pub mod wire;

pub use error::Error;

//! Errors of the runtime.

use vstd::prelude::*;

verus! {

/// What went wrong, with plain values for the operating system's part.
#[derive(Clone, Debug, PartialEq, Eq)]
pub enum Error {
    /// A system call failed with this `errno`.
    Io(i32),
    /// The parent must run as root while privileges are to be dropped.
    PermissionDenied,
    /// The first process of the topology is not named `parent`.
    MissingParent,
    /// A process name is not part of the topology.
    InvalidProcess,
    /// The user to drop privileges to has no passwd entry.
    UserNotFound(String),
    /// A step of dropping privileges failed with this `errno`.
    Privdrop(&'static str, i32),
    /// A peer closed its channel unexpectedly.
    Terminated(&'static str),
    /// Fewer bytes were sent than the frame holds.
    ShortWrite,
    /// A payload or header does not make a valid frame.
    InvalidData,
    /// The channel was shut down.
    NotConnected,
    /// The message id is reserved for the runtime.
    InvalidArgument,
}

} // verus!

use vstd::prelude::*;

verus! {

/// What a failed read or write on the connection amounts to.
#[derive(Debug, Clone, Copy, PartialEq, Eq, Structural)]
pub enum IoFault {
    ConnectionReset,
    ConnectionAborted,
    BrokenPipe,
    UnexpectedEof,
    Other,
}

/// A fatal error of a comms task: the task stops and reports it once.
#[derive(Debug, Clone, Copy, PartialEq, Eq, Structural)]
pub enum Error {
    /// The connection can no longer be used.
    IoError(IoFault),
    /// A local queue endpoint was closed by the other side.
    QueueClosed,
}

impl Error {
    /// The error for a failed read or write.
    pub fn from_io(fault: IoFault) -> (r: Error)
        ensures
            r == Error::IoError(fault),
    {
        Error::IoError(fault)
    }
}

} // verus!

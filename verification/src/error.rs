use vstd::prelude::*;

verus! {

/// The category of a failed request.
#[derive(Clone, Copy, Debug, PartialEq, Eq, Structural)]
pub enum ErrorKind {
    /// An argument, a layout or a request that can never succeed as given.
    InvalidInput,
    /// Durable bytes that do not decode, or that contradict each other.
    InvalidData,
    /// A record or a device that ends too early.
    UnexpectedEof,
    /// An unfinished transaction stands in the way.
    WouldBlock,
    /// A name or an object that does not exist.
    NotFound,
    /// A failure of the device itself.
    Other,
}

/// A failed request: its category and a fixed explanation.
#[derive(Clone, Copy, Debug, PartialEq, Eq)]
pub struct Error {
    pub kind: ErrorKind,
    pub message: &'static str,
}

impl Error {
    pub fn new(kind: ErrorKind, message: &'static str) -> (e: Error)
        ensures
            e.kind == kind,
            e.message == message,
    {
        Error { kind, message }
    }

    /// The category of the failure.
    pub fn kind(&self) -> (k: ErrorKind)
        ensures
            k == self.kind,
    {
        self.kind
    }
}

} // verus!

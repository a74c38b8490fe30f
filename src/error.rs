use vstd::prelude::*;

verus! {

/// The ways in which reading or writing CRAM data can fail.
#[derive(Clone, Copy, Debug, PartialEq, Eq, Structural)]
pub enum Error {
    /// More bytes (or bits) were needed than the input holds.
    UnexpectedEof,
    /// Well-formed input that breaks an invariant of the format.
    InvalidData,
    /// A value handed in by the caller that the format cannot carry.
    InvalidInput,
    /// A codec or feature that this version or this library cannot handle.
    Unsupported,
}

impl Error {
    /// The category of this error (the error itself: it carries no payload).
    pub fn kind(&self) -> (r: Error)
        ensures
            r == *self,
    {
        *self
    }
}

} // verus!

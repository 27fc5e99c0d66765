use vstd::prelude::*;

verus! {

/// What went wrong.
#[derive(Clone, Copy, Debug, PartialEq, Eq, Structural)]
pub enum ErrorKind {
    /// Generation parameters out of range, or a rectangle too small for them.
    InvalidParameters,
    /// Generation gave up before enough separated points were found.
    GenerationExhausted,
    /// An edge was asked for between two coincident points.
    DegenerateEdge,
}

/// The error of this library.
#[derive(Clone, Copy, Debug, PartialEq, Eq, Structural)]
pub struct Error {
    pub kind: ErrorKind,
}

impl Error {
    pub fn new(kind: ErrorKind) -> (r: Self)
        ensures
            r.kind == kind,
    {
        Error { kind }
    }
}

} // verus!

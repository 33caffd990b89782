use vstd::prelude::*;

verus! {

/// The ways in which an operation of this library fails.
#[derive(Clone, Copy, Debug, PartialEq, Eq, Structural)]
pub enum Error {
    /// Magic, version, a tag or a length field is malformed.
    FormatError,
    /// Fewer bytes are available than were declared.
    TruncatedStream,
    /// A geometry or an attribute does not fit the declared schema.
    SchemaViolation,
    /// A spatial query was asked of a file without an index, with no fallback.
    IndexUnavailable,
    /// The operation is not allowed in the current state.
    InvalidState,
}

impl Error {
    /// A short fixed name of the failure.
    pub fn name(&self) -> (s: &'static str)
        ensures
            s@ == match *self {
                Error::FormatError => "FormatError"@,
                Error::TruncatedStream => "TruncatedStream"@,
                Error::SchemaViolation => "SchemaViolation"@,
                Error::IndexUnavailable => "IndexUnavailable"@,
                Error::InvalidState => "InvalidState"@,
            },
    {
        match self {
            Error::FormatError => "FormatError",
            Error::TruncatedStream => "TruncatedStream",
            Error::SchemaViolation => "SchemaViolation",
            Error::IndexUnavailable => "IndexUnavailable",
            Error::InvalidState => "InvalidState",
        }
    }
}

/// `r` is the success `v`.
pub open spec fn gives<T>(r: Result<T, Error>, v: T) -> bool {
    r == Ok::<T, Error>(v)
}

/// `r` is the failure `e`.
pub open spec fn fails<T>(r: Result<T, Error>, e: Error) -> bool {
    r == Err::<T, Error>(e)
}

} // verus!

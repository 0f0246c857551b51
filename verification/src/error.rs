use vstd::prelude::*;

verus! {

/// Why a header block was rejected.
#[derive(Clone, Copy, Debug, PartialEq, Eq, Structural)]
pub enum HttpError {
    /// The header terminator does not occur in the buffer.
    TruncatedData,
    /// The bytes break the header grammar or a lexical class.
    ProtocolViolation,
}

} // verus!

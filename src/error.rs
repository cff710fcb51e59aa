use vstd::prelude::*;

verus! {

/// Every way in which decoding can fail.
#[derive(Debug, Clone, Copy, PartialEq, Eq, Structural)]
pub enum DecodeError {
    /// Fewer bytes remain than the next read needs.
    UnexpectedEof,
    /// A length prefix is larger than the container's declared maximum.
    LengthExceedsMax,
    /// An alignment padding byte is not zero.
    NonZeroPadding,
    /// A boolean's wire value is neither 0 nor 1.
    InvalidBoolean,
    /// An optional's presence flag is neither 0 nor 1.
    InvalidOptionFlag,
    /// A union or enum discriminant outside the declared set; holds the value read.
    InvalidDiscriminant(i32),
    /// Composite values are nested deeper than the configured maximum.
    DepthLimitExceeded,
    /// Bytes remain after a top-level decode that had to consume everything.
    TrailingBytes,
}

} // verus!

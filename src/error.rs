use vstd::prelude::*;
use crate::varint::VarintError;

verus! {

/// What went wrong while reading a stored record.
#[derive(Debug, Clone, Copy, PartialEq, Eq, Structural)]
pub enum IngestErrorKind {
    /// A record key that does not start with the id prefix.
    NonIdKey { prefix: u8 },
    /// A buffer ended in the middle of a field.
    TruncatedInput,
    /// A varint whose value does not fit in 64 bits.
    VarintOverflow,
}

/// An error raised while reading a stored record.
#[derive(Debug, Clone, Copy, PartialEq, Eq, Structural)]
pub struct IngestError {
    pub kind: IngestErrorKind,
}

impl IngestErrorKind {
    /// Fails with this kind of error.
    pub fn raise<T>(self) -> (r: Result<T, IngestError>)
        ensures
            r == Err::<T, IngestError>(IngestError { kind: self }),
    {
        Err(IngestError { kind: self })
    }
}

/// The error kind that stands for a varint failure.
pub open spec fn varint_kind(e: VarintError) -> IngestErrorKind {
    match e {
        VarintError::TruncatedInput => IngestErrorKind::TruncatedInput,
        VarintError::VarintOverflow => IngestErrorKind::VarintOverflow,
    }
}

impl IngestError {
    /// The kind of this error.
    pub fn kind(&self) -> (r: IngestErrorKind)
        ensures
            r == self.kind,
    {
        self.kind
    }

    /// The error for a failed varint read.
    pub fn from_varint(e: VarintError) -> (r: IngestError)
        ensures
            r.kind == varint_kind(e),
    {
        match e {
            VarintError::TruncatedInput => IngestError { kind: IngestErrorKind::TruncatedInput },
            VarintError::VarintOverflow => IngestError { kind: IngestErrorKind::VarintOverflow },
        }
    }
}

} // verus!

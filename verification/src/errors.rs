//! Error values reported by the constructors of this crate.

use vstd::prelude::*;

verus! {

/// The reason a constructor refused its input.
#[derive(Debug, Clone, Copy, PartialEq, Eq, Structural)]
pub enum ErrorKind {
    /// The values handed to the encoder are not strictly increasing.
    UnsortedIds,
    /// The encoder was handed no values at all.
    NoIds,
    /// A byte buffer of the carried length cannot be decoded.
    InvalidSourceData(usize),
}

/// An error raised while building or decoding a structure of this crate.
#[derive(Debug, Clone, Copy, PartialEq, Eq, Structural)]
pub struct Error {
    error: ErrorKind,
}

impl Error {
    /// The reason carried by this error.
    pub closed spec fn spec_kind(&self) -> ErrorKind {
        self.error
    }

    /// The reason carried by this error.
    #[verifier::when_used_as_spec(spec_kind)]
    pub fn kind(&self) -> (k: ErrorKind)
        ensures
            k == self.spec_kind(),
    {
        self.error
    }

    /// The error for input that is not strictly increasing.
    pub fn unsorted_ids() -> (e: Self)
        ensures
            e.kind() == ErrorKind::UnsortedIds,
    {
        Self { error: ErrorKind::UnsortedIds }
    }

    /// The error for empty input.
    pub fn no_ids() -> (e: Self)
        ensures
            e.kind() == ErrorKind::NoIds,
    {
        Self { error: ErrorKind::NoIds }
    }

    /// The error for a byte buffer of length `l` that cannot be decoded.
    pub fn invalid_bits_data(l: usize) -> (e: Self)
        ensures
            e.kind() == ErrorKind::InvalidSourceData(l),
    {
        Self { error: ErrorKind::InvalidSourceData(l) }
    }
}

} // verus!

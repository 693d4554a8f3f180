//! Errors reported by the library.
use vstd::prelude::*;

verus! {

/// Every failure the library reports, each kind distinct for the caller.
#[derive(Debug)]
pub enum Error {
    /// Magic prefix absent or header malformed.
    NotAnArchive(String),
    /// Manifest digest, chunk digest or source digest disagrees.
    ChecksumMismatch(String),
    /// Failure of an underlying read or write.
    IO(String),
    /// The manifest's wire format could not be decoded.
    ManifestDecode(String),
    /// The manifest could not be encoded.
    ManifestEncode(String),
    /// A codec refused its input.
    Compression(String),
    /// Transport failure of a remote reader.
    Http(String),
    /// A remote address is malformed.
    InvalidUri(String),
    /// A worker task ended abnormally.
    WorkerJoin(String),
    /// A chunker or compression configuration violates its invariants.
    Config(String),
    /// Anything else, described.
    Other(String),
    /// An error with a description of what was being done when it happened.
    Wrapped(String, Box<Error>),
}

impl Error {
    /// Adds a description of the failing operation around the error.
    pub fn wrap(self, desc: &str) -> (r: Error)
        ensures
            r matches Error::Wrapped(d, inner) && d@ == desc@ && *inner == self,
    {
        Error::Wrapped(desc.to_owned(), Box::new(self))
    }
}

} // verus!

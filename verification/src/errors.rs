//! The failure kinds that the engine reports. Every operation either fully
//! succeeds or returns one of these; none panics on caller-supplied input.

use vstd::prelude::*;

verus! {

/// A typed failure of a document, codec, dispatch or session operation.
#[derive(Debug, Clone, PartialEq, Eq)]
pub enum MapError {
    /// An identifier did not resolve to a node of the document.
    NotFound,
    /// A structurally disallowed mutation, such as deleting the root.
    InvalidOperation,
    /// Malformed on-disk content; carries the character offset at which
    /// decoding stopped.
    DecodeError(usize),
    /// The document cannot be represented in the target format.
    EncodeError,
    /// A recognized format family whose physical sub-variant (a zip archive)
    /// is not implemented.
    UnsupportedVariant,
    /// An underlying read or write failed; carries a description.
    IoFailure(String),
    /// A save was requested with no path given and none recorded before.
    NoActivePath,
    /// A shared-state guard was left inconsistent by an earlier failure.
    LockPoisoned,
}

impl MapError {
    /// A short description of the failure, for display by a caller.
    pub fn describe(&self) -> (r: &'static str)
        ensures
            r@ == Self::spec_describe(*self),
    {
        match self {
            MapError::NotFound => "node not found",
            MapError::InvalidOperation => "operation not allowed",
            MapError::DecodeError(_) => "malformed document content",
            MapError::EncodeError => "document cannot be encoded",
            MapError::UnsupportedVariant => "unsupported format variant",
            MapError::IoFailure(_) => "input/output failure",
            MapError::NoActivePath => "no path specified and no current path defined",
            MapError::LockPoisoned => "state lock was poisoned",
        }
    }

    /// What `describe` returns for each failure kind.
    pub open spec fn spec_describe(e: MapError) -> Seq<char> {
        match e {
            MapError::NotFound => "node not found"@,
            MapError::InvalidOperation => "operation not allowed"@,
            MapError::DecodeError(_) => "malformed document content"@,
            MapError::EncodeError => "document cannot be encoded"@,
            MapError::UnsupportedVariant => "unsupported format variant"@,
            MapError::IoFailure(_) => "input/output failure"@,
            MapError::NoActivePath => "no path specified and no current path defined"@,
            MapError::LockPoisoned => "state lock was poisoned"@,
        }
    }
}

} // verus!

use vstd::prelude::*;

verus! {

/// Errors raised while a routing table is built.
///
/// Building errors (an ambiguous definition, a duplicated registration, a
/// malformed wildcard, a sub-router mount conflict) are configuration
/// mistakes: callers are expected to abort startup on them. Searching a
/// path never returns an error; an unmatched path is an ordinary `None`.
#[derive(Debug)]
pub enum InternalError {
    /// A build-time conflict: ambiguous sibling definitions, a duplicated
    /// method at one path, a malformed wildcard segment, or a mount point
    /// that already carries routing data.
    GeneralError(String),
    /// Something required was absent.
    NoneError(String),
    /// A path parameter could not be used as requested.
    ParamError(String),
}

impl InternalError {
    /// The human-readable text carried by the error.
    pub fn message(&self) -> (r: String)
        ensures
            r@ == self.text(),
    {
        match self {
            InternalError::GeneralError(m) => m.clone(),
            InternalError::NoneError(m) => m.clone(),
            InternalError::ParamError(m) => m.clone(),
        }
    }

    /// The text carried by the error, as a sequence of characters.
    pub open spec fn text(&self) -> Seq<char> {
        match self {
            InternalError::GeneralError(m) => m@,
            InternalError::NoneError(m) => m@,
            InternalError::ParamError(m) => m@,
        }
    }
}

} // verus!

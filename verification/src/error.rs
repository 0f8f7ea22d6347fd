use vstd::prelude::*;

verus! {

/// Canonical error taxonomy of the store.
///
/// Backend-specific failures are mapped into these kinds and never leaked
/// across the capability boundary. Absence of a key or a table is not an
/// error: read operations report it as `None` or an empty listing.
#[derive(Clone, Copy, Debug, PartialEq, Eq, Structural)]
pub enum KvError {
    /// A table, key, or backing file that the operation requires is missing.
    NotFound,
    /// A reserved table name was used as an ordinary table, or an argument
    /// violates a documented constraint.
    InvalidInput,
    /// A persisted value is malformed, or a version counter would overflow.
    InvalidData,
    /// A resource that must be created fresh already exists.
    AlreadyExists,
    /// A read-only store or transaction refused a mutation.
    PermissionDenied,
    /// A backend condition with no canonical equivalent.
    Other,
}

impl KvError {
    /// A short human-readable description of the error kind.
    pub fn describe(&self) -> (r: &'static str)
        ensures
            r@.len() > 0,
    {
        proof {
            reveal_strlit("not found");
            reveal_strlit("invalid input");
            reveal_strlit("invalid data");
            reveal_strlit("already exists");
            reveal_strlit("permission denied");
            reveal_strlit("backend error");
        }
        match self {
            KvError::NotFound => "not found",
            KvError::InvalidInput => "invalid input",
            KvError::InvalidData => "invalid data",
            KvError::AlreadyExists => "already exists",
            KvError::PermissionDenied => "permission denied",
            KvError::Other => "backend error",
        }
    }
}

} // verus!

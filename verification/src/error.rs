//! Error kinds surfaced by the engine.

use vstd::prelude::*;

verus! {

/// Every failure the engine can report.
#[derive(Copy, Clone, Eq, PartialEq, Debug, Structural)]
pub enum IsarError {
    /// The on-disk schema is incompatible with the requested one.
    SchemaMismatch,
    /// The transaction was latched inactive by an earlier failure,
    /// or was never active.
    TransactionClosed,
    /// A write collided with an existing key of a unique index.
    UniqueViolation,
    /// The stored format version is not supported.
    VersionError,
    /// A mutation was attempted inside a read-only transaction.
    WriteTxnRequired,
    /// The substrate ran out of space.
    DbFull,
    /// A caller-supplied argument is invalid (unknown collection or
    /// property index, reserved object id, mismatched value kind).
    IllegalArg,
    /// A filesystem path was invalid.
    PathError,
    /// Stored bytes could not be decoded.
    EncodingError,
    /// A JSON import could not be parsed.
    JsonError,
    /// The requested operation is not supported.
    Unsupported,
}

impl IsarError {
    /// A short human-readable name for the error kind.
    pub fn as_text(&self) -> (r: &'static str)
        ensures
            self is TransactionClosed ==> r@ == "transaction closed"@,
            self is UniqueViolation ==> r@ == "unique violation"@,
    {
        match self {
            IsarError::SchemaMismatch => "schema mismatch",
            IsarError::TransactionClosed => "transaction closed",
            IsarError::UniqueViolation => "unique violation",
            IsarError::VersionError => "version error",
            IsarError::WriteTxnRequired => "write transaction required",
            IsarError::DbFull => "database full",
            IsarError::IllegalArg => "illegal argument",
            IsarError::PathError => "path error",
            IsarError::EncodingError => "encoding error",
            IsarError::JsonError => "json error",
            IsarError::Unsupported => "unsupported operation",
        }
    }
}

} // verus!

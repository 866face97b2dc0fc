//! Error model of the database core.

use vstd::prelude::*;

verus! {

/// The kinds of failure the core distinguishes.
#[derive(Clone, Copy, Debug, PartialEq, Eq, Structural)]
pub enum ErrorKind {
    /// A referenced table, query, source file, or column is missing.
    NotFound,
    /// A duplicate table name at create time.
    Conflict,
    /// Column-count, type or parse errors during ingest; duplicate column
    /// names; row-length mismatch when adding a column.
    SchemaMismatch,
    /// Magic mismatch, unsupported version, varint overrun, truncated payload,
    /// invalid UTF-8 in a varchar batch, or a size inconsistency.
    Corrupt,
    /// An underlying codec-library or filesystem failure.
    Io,
    /// An invalid request shape.
    BadRequest,
    /// A query in the wrong state for the requested action.
    Precondition,
}

/// An error of the core: a kind together with a human-readable message.
#[derive(Clone, Debug)]
pub struct DbError {
    pub kind: ErrorKind,
    pub message: String,
}

impl DbError {
    pub fn new(kind: ErrorKind, message: String) -> (r: DbError)
        ensures
            r.kind == kind,
            r.message@ == message@,
    {
        DbError { kind, message }
    }

    pub fn of(kind: ErrorKind, message: &str) -> (r: DbError)
        ensures
            r.kind == kind,
            r.message@ == message@,
    {
        DbError { kind, message: message.to_owned() }
    }
}

} // verus!

//! Engine for interactive exploration of newline-delimited JSON logs:
//! it keeps the raw records, infers a best-effort tabular schema over
//! them, merges analyzer output with user projection/filter edits, and
//! answers bounded, filtered, projected queries with typed cells.
use vstd::prelude::*;

pub mod analyze;
pub mod datetime;
pub mod json;
pub mod query;
pub mod store;
pub mod text;
pub mod types;

verus! {

/// The recoverable faults a command can surface.  File and storage
/// faults belong to the shell around the library; the library itself
/// reports only validation and query-building faults.
#[derive(Clone, Copy, Debug, PartialEq, Eq, Structural)]
pub enum EngineError {
    /// The source could not be read; raised by the surrounding shell.
    IoError,
    /// The backing store is unavailable; raised by the surrounding shell.
    StorageError,
    /// An untrusted column name fails the identifier grammar.
    ValidationError,
    /// The statement cannot be prepared as requested.
    QueryError,
}

} // verus!

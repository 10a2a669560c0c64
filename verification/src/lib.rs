//! Ingestion of delimited text tables into an embedded relational store,
//! and serialization of query results back to delimited text.
//!
//! The crate covers the logic of that pipeline: reading a source into a
//! header and data rows, building the `CREATE TABLE` and parameterized
//! `INSERT` statements, the bounded batching policy for loading rows, and
//! the quoting rules used when a result set is written back out.  The
//! embedded SQL engine itself, file handling and the command line are left
//! to the surrounding binary, which hands this crate plain byte values and
//! executes the statements it produces.

use vstd::prelude::*;

pub mod batch;
pub mod decode;
pub mod encode;
pub mod loader;
pub mod output;
pub mod text;
pub mod todo;

verus! {

/// Number of rows accumulated before a batched `INSERT` is flushed.
pub const DEFAULT_BATCH_SIZE: usize = 300;

/// Every failure the pipeline can report.  Each stage fails fast: the first
/// error is propagated and no partial output is produced.
#[derive(Clone, Copy, Debug, PartialEq, Eq, Structural)]
pub enum PipelineError {
    /// A source's header row has no usable columns.
    EmptySchema,
    /// A record could not be parsed, or its field count does not match the
    /// header of its table.
    MalformedRow,
    /// The store rejected a `CREATE TABLE` or `INSERT` statement.
    StoreWriteFailed,
    /// The store rejected the user's query.
    QueryFailed,
    /// The query returned an empty result set.
    NoRows,
    /// A result column could not be decoded as text.
    NonTextValue,
    /// An input could not be opened or the output could not be created.
    IoFailure,
}

impl PipelineError {
    /// A short description of the failure, for reports assembled by the
    /// caller.
    pub fn describe(&self) -> (r: &'static str)
        ensures
            r@ == match self {
                PipelineError::EmptySchema => "source has no header columns"@,
                PipelineError::MalformedRow => "malformed row"@,
                PipelineError::StoreWriteFailed => "store rejected a write"@,
                PipelineError::QueryFailed => "store rejected the query"@,
                PipelineError::NoRows => "no records returned for query"@,
                PipelineError::NonTextValue => "result value is not text"@,
                PipelineError::IoFailure => "input or output unavailable"@,
            },
    {
        match self {
            PipelineError::EmptySchema => "source has no header columns",
            PipelineError::MalformedRow => "malformed row",
            PipelineError::StoreWriteFailed => "store rejected a write",
            PipelineError::QueryFailed => "store rejected the query",
            PipelineError::NoRows => "no records returned for query",
            PipelineError::NonTextValue => "result value is not text",
            PipelineError::IoFailure => "input or output unavailable",
        }
    }
}

} // verus!

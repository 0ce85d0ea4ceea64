use vstd::prelude::*;

verus! {

/// Missing required dataset or key-field configuration; fatal and surfaced
/// before any record is processed.
#[derive(Debug, PartialEq, Eq, Structural)]
pub enum ConfigError {
    /// A dataset side was not configured at all.
    MissingDataset,
    /// The dataset side has no key-field list.
    MissingKeyFields,
    /// The key-field list is present but empty.
    EmptyKeyFields,
}

/// Per-record key-extraction failure.
#[derive(Debug, PartialEq, Eq, Structural)]
pub enum ExtractError {
    /// Literal strategy: a key field is absent from the record's top level,
    /// or its value is not a string.
    MissingOrNonString,
    /// Expression strategy: compiling or evaluating a path expression failed,
    /// or the result is not a scalar string.
    QueryFailed,
}

/// A malformed record in the input stream, carrying the byte offset at which
/// the record starts and a ready-to-read snippet of its text.
#[derive(Debug, PartialEq)]
pub struct DecodeError {
    pub offset: usize,
    pub snippet: Vec<u8>,
}

/// Failure of the keyed staging store.
#[derive(Debug, PartialEq, Eq, Structural)]
pub enum StoreError {
    /// The cumulative size of staged data would exceed the configured ceiling.
    CapacityExceeded,
    /// The underlying storage failed; previously committed data is unaffected.
    IoFailure,
    /// A write was attempted after the stager's transaction was committed.
    AlreadyCommitted,
    /// The single writer slot is held elsewhere; recoverable by waiting.
    WriterContention,
}

} // verus!

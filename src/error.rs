//! The ways in which reading the history can fail.
use vstd::prelude::*;

verus! {

/// Why a history query could not complete.
#[derive(Clone, Debug, PartialEq, Eq)]
pub enum HistoryError {
    /// No history file location could be resolved.
    Config,
    /// The history file could not be opened or read; the text says why.
    Io(String),
    /// A record breaks the record grammar; the record's text.
    MalformedRecord(String),
}

} // verus!

//! What can go wrong in the table storage.

use vstd::prelude::*;
use vstd::string::*;

verus! {

/// A failure of a table operation.
#[derive(Debug, Clone, PartialEq, Eq)]
pub enum TableError {
    /// An id was asked of a table that was set up without a sequence.
    SequenceDisabled { table: String },
    /// The persisted anchor of a sequence is not a 64-bit number.
    SequenceCorrupt,
    /// The next block of ids would pass the largest 64-bit number.
    SequenceExhausted,
    /// Bytes that are no table definition record.
    InvalidDefinition,
    /// The database failed; the text is the database's own description.
    Storage(String),
}

impl TableError {
    /// The text of a failure, for a caller that reports it.
    pub fn message(&self) -> (text: String)
        ensures
            text@ == match *self {
                TableError::SequenceDisabled { table } => "the table "@ + table@ + " seq is none"@,
                TableError::SequenceCorrupt => "the sequence anchor is not a 64-bit number"@,
                TableError::SequenceExhausted => "the sequence has no ids left"@,
                TableError::InvalidDefinition => "the bytes are no table definition"@,
                TableError::Storage(text) => "storage failure: "@ + text@,
            },
    {
        match self {
            TableError::SequenceDisabled { table } => String::from_str("the table ").concat(
                table.as_str(),
            ).concat(" seq is none"),
            TableError::SequenceCorrupt => String::from_str(
                "the sequence anchor is not a 64-bit number",
            ),
            TableError::SequenceExhausted => String::from_str("the sequence has no ids left"),
            TableError::InvalidDefinition => String::from_str("the bytes are no table definition"),
            TableError::Storage(text) => String::from_str("storage failure: ").concat(
                text.as_str(),
            ),
        }
    }
}

} // verus!

//! What can go wrong on a binary column.
use vstd::prelude::*;

verus! {

/// An error of a column operation.
#[derive(Debug, PartialEq, Eq)]
pub enum Error {
    /// A row is neither JSON text nor JSONB: `value` is the row as text.
    InvalidJson { value: String },
    /// A row cannot be read as a vector of the wanted dimension.
    InvalidVector { msg: String },
    /// A value or a vector is not of the type that was asked for.
    CastType { msg: String },
    /// An array is not binary: `from` is its data type.
    Conversion { from: String },
    /// A row cannot be written as JSON.
    Serialize,
}

} // verus!

use vstd::prelude::*;

verus! {

/// The closed set of failure kinds that every fallible operation of the
/// engine reports. Checked operations return one of these; they never panic.
#[derive(Clone, Copy, Debug, PartialEq, Eq, Structural)]
pub enum CoreError {
    /// The data types of the operands disagree.
    SchemaMismatch,
    /// A checked index or length was outside the column.
    OutOfBounds,
    /// The operation is not defined for the element type or the
    /// operands' shape, or a precondition of an export was not met.
    InvalidOperation,
    /// The byte sink or source failed.
    IoFailure,
    /// Malformed or truncated interchange metadata or body.
    FormatCorruption,
    /// A requested column name is absent from the schema.
    NameResolution,
}

impl CoreError {
    /// A short human-readable description of the failure kind.
    pub fn describe(&self) -> String {
        match self {
            CoreError::SchemaMismatch => "data types don't match".to_owned(),
            CoreError::OutOfBounds => "index out of bounds".to_owned(),
            CoreError::InvalidOperation => "invalid operation".to_owned(),
            CoreError::IoFailure => "i/o failure".to_owned(),
            CoreError::FormatCorruption => "malformed interchange data".to_owned(),
            CoreError::NameResolution => "column name not found".to_owned(),
        }
    }
}

} // verus!

use vstd::prelude::*;

verus! {

/// Why an operation on a table, or the parsing of a line, was refused.
#[derive(Debug, Clone, Copy, PartialEq, Eq, Structural)]
pub enum CsvError {
    /// A line ended inside a quoted field or right after a lone backslash.
    Unterminated,
    /// The row at index `row` has `given` fields where the header has `expected`.
    RowLength { row: usize, given: usize, expected: usize },
    /// `given` values were supplied where `expected` were needed.
    FieldCount { given: usize, expected: usize },
    /// No column carries the requested name.
    UnknownColumn,
    /// A column with the requested name is already present.
    DuplicateColumn,
    /// The column index lies beyond the header.
    ColumnOutOfRange { index: usize },
    /// The row index lies beyond the last row.
    RowOutOfRange { index: usize },
}

} // verus!

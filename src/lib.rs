//! Tools for reading, editing and writing delimited text tables (CSV).
//!
//! A line is split into fields either by a plain split at the delimiter or,
//! when it holds a double quote, by a scanner that honours quoted fields and
//! backslash escapes. A `CSVFile` holds the column names and the rows, and
//! offers edits that keep every row as wide as the header.

pub mod edit;
pub mod error;
pub mod laws;
pub mod loader;
pub mod query;
pub mod render;
pub mod table;
pub mod text;
pub mod tokenizer;
pub mod trim;

pub use error::CsvError;
pub use loader::{read_columns, read_rows};
pub use query::ColumnMap;
pub use table::{CSVCoords, CSVFile};
pub use text::{contains_char, contains_text};
pub use tokenizer::{parse_line, split_line};

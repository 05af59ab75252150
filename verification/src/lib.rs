//! Reordering and splicing of row-based data, such as the records of a CSV file.
//!
//! A [`ColumnMap`] says, for each source column, to which destination column it moves
//! (or that it is dropped); a [`Row`] holds the fields of one record.
//! Every operation here carries a contract that Verus proves.

pub mod map;
pub mod row;
pub mod text;
pub mod laws;

pub use map::{ColumnMap, MapError};
pub use row::{CombinationError, Row};

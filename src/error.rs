use vstd::prelude::*;
use crate::record::RowError;

verus! {

/// A header that does not name the three columns.
#[derive(Debug, Clone, PartialEq, Eq)]
pub enum SchemaError {
    /// The header has `found` columns instead of three.
    ColumnCount { found: usize },
    /// No column is named `name`, in any letter case.
    MissingColumn { name: String },
}

/// Why sales data could not be aggregated or charted.
#[derive(Debug, Clone, PartialEq, Eq)]
pub enum SalesError {
    /// The input is not well-formed CSV; the text is the reader's description.
    Csv(String),
    Schema(SchemaError),
    Row(RowError),
    /// There is nothing to chart: no month or no product has a total.
    EmptyAggregate,
}

} // verus!

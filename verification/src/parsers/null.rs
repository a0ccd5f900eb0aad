//! The parser that makes no column of a column.

use crate::data::column::Column;
use crate::types::{Numeric, PipelineError};
use vstd::prelude::*;

verus! {

/// The parser that drops its column.
pub struct NullParser;

impl NullParser {
    /// Drops the column: nothing is made of it.
    pub fn parse(_column: &Column<Option<String>>) -> (parsed: Result<
        Option<Column<Option<Numeric>>>,
        PipelineError,
    >)
        ensures
            parsed == Ok::<Option<Column<Option<Numeric>>>, PipelineError>(None),
    {
        Ok(None)
    }
}

} // verus!

//! The parser that reads every text as a decimal number.

use crate::data::column::Column;
use crate::text::{numeric_value, parse_numeric};
use crate::types::{Numeric, PipelineError};
use vstd::prelude::*;

verus! {

/// The parser of texts that write numbers.
pub struct NumericalParser;

/// The numbers that the values write: a text that writes no number counts
/// as missing, as a missing value does.
pub open spec fn numbers_of(values: Seq<Option<String>>) -> Seq<Option<Numeric>> {
    Seq::new(
        values.len(),
        |i: int|
            match values[i] {
                Some(text) => numeric_value(text@),
                None => None,
            },
    )
}

impl NumericalParser {
    /// Whether `parsed` is what this parser makes of `values`: a column of
    /// the numbers that they write, without header and dictionary.
    pub open spec fn parses(values: Seq<Option<String>>, parsed: Result<
        Option<Column<Option<Numeric>>>,
        PipelineError,
    >) -> bool {
        parsed matches Ok(Some(column)) && column@ == numbers_of(values) && column.name_view() is None
            && column.metadata_view() is None
    }

    /// Reads every value of `column` as a number.
    pub fn parse(column: &Column<Option<String>>) -> (parsed: Result<
        Option<Column<Option<Numeric>>>,
        PipelineError,
    >)
        ensures
            Self::parses(column@, parsed),
    {
        let values = column.values();
        let mut ret: Column<Option<Numeric>> = Column::new();
        let mut at: usize = 0;
        while at < values.len()
            invariant
                at <= values@.len(),
                values@ == column@,
                ret@ == numbers_of(values@).take(at as int),
                ret.name_view() is None,
                ret.metadata_view() is None,
            decreases values@.len() - at,
        {
            let number = match &values[at] {
                Some(text) => parse_numeric(text.as_str()),
                None => None,
            };
            ret.push(number);
            at = at + 1;
            assert(ret@ =~= numbers_of(values@).take(at as int));
        }
        assert(numbers_of(values@).take(at as int) == numbers_of(values@));
        Ok(Some(ret))
    }
}

} // verus!

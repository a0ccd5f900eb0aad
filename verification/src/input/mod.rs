//! Readers: how the text of an input becomes a table of texts.

pub mod csv;

use crate::types::PipelineError;
use vstd::prelude::*;

verus! {

/// The formats that can be read.
#[derive(Clone, Copy, Debug, PartialEq, Eq, Structural)]
pub enum Reader {
    Csv,
}

/// The reader that goes by `format`: `csv`; any other format is `InvalidConfig`.
pub fn get_reader(format: &str) -> (found: Result<Reader, PipelineError>)
    ensures
        found == if format@ == "csv"@ {
            Ok::<Reader, PipelineError>(Reader::Csv)
        } else {
            Err(PipelineError::InvalidConfig)
        },
{
    if format.to_owned() == "csv".to_owned() {
        Ok(Reader::Csv)
    } else {
        Err(PipelineError::InvalidConfig)
    }
}

} // verus!

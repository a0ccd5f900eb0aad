//! The scrubber that fills the missing values in with the most common of
//! those that are present.

use crate::data::column::Column;
use crate::models::mode;
use crate::scrubbers::{collect_present, fill_missing, Scrubber};
use crate::types::{Numeric, PipelineError};
use vstd::prelude::*;

verus! {

/// The scrubber that fills in with the most common value.
pub struct ModeScrubber;

impl ModeScrubber {
    /// Puts the most common of the values that are present, of several
    /// such the one met first, in the place of every missing one. A column
    /// without a value stays as it is (`EmptyInput`).
    pub fn clean(column: &mut Column<Option<Numeric>>) -> (done: Result<(), PipelineError>)
        ensures
            final(column).same_labels(old(column)),
            match Scrubber::Mode.cleaned(old(column)@) {
                Ok(values) => done is Ok && final(column)@ == values,
                Err(error) => done == Err::<(), PipelineError>(error) && final(column)@ == old(column)@,
            },
    {
        let known = collect_present(column);
        if known.len() == 0 {
            return Err(PipelineError::EmptyInput);
        }
        fill_missing(column, mode(&known));
        Ok(())
    }
}

} // verus!

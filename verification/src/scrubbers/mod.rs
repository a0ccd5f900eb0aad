//! Scrubbers: how the missing values of a column are filled in, and how the
//! rows that still miss a value are taken out of a table.

pub mod mean;
pub mod mode;

use crate::config::ScrubbingStageConfigs;
use crate::data::column::Column;
use crate::data::data_frame::DataFrame;
use crate::scrubbers::mean::MeanScrubber;
use crate::scrubbers::mode::ModeScrubber;
use crate::types::{Numeric, PipelineError};
use vstd::prelude::*;

verus! {

/// The ways of filling in missing values.
#[derive(Clone, Copy, Debug, PartialEq, Eq, Structural)]
pub enum Scrubber {
    Mean,
    Mode,
}

/// The scrubber that `name` stands for, if it stands for one: `mean` or `mode`.
pub open spec fn scrubber_named(name: Seq<char>) -> Option<Scrubber> {
    if name == "mean"@ {
        Some(Scrubber::Mean)
    } else if name == "mode"@ {
        Some(Scrubber::Mode)
    } else {
        None
    }
}

/// The scrubber that goes by `name`; a name that stands for none is `InvalidConfig`.
pub fn get_scrubber(name: &str) -> (found: Result<Scrubber, PipelineError>)
    ensures
        found == match scrubber_named(name@) {
            Some(scrubber) => Ok::<Scrubber, PipelineError>(scrubber),
            None => Err(PipelineError::InvalidConfig),
        },
{
    let wanted = name.to_owned();
    if wanted == "mean".to_owned() {
        Ok(Scrubber::Mean)
    } else if wanted == "mode".to_owned() {
        Ok(Scrubber::Mode)
    } else {
        Err(PipelineError::InvalidConfig)
    }
}

/// The values that are present among the first `upto`, in their order.
pub open spec fn present(values: Seq<Option<Numeric>>, upto: int) -> Seq<Numeric>
    decreases upto,
{
    if upto <= 0 {
        Seq::empty()
    } else {
        match values[upto - 1] {
            Some(value) => present(values, upto - 1).push(value),
            None => present(values, upto - 1),
        }
    }
}

/// The values with `filler` in the place of every missing one.
pub open spec fn filled(values: Seq<Option<Numeric>>, filler: Numeric) -> Seq<Option<Numeric>> {
    Seq::new(
        values.len(),
        |i: int|
            match values[i] {
                Some(value) => Some(value),
                None => Some(filler),
            },
    )
}

/// The values of `column` that are present, in their order.
pub fn collect_present(column: &Column<Option<Numeric>>) -> (values: Vec<Numeric>)
    ensures
        values@ == present(column@, column@.len() as int),
{
    let all = column.values();
    let mut values: Vec<Numeric> = Vec::new();
    let mut at: usize = 0;
    while at < all.len()
        invariant
            at <= all@.len(),
            all@ == column@,
            values@ == present(all@, at as int),
        decreases all@.len() - at,
    {
        match all[at] {
            Some(value) => {
                values.push(value);
            },
            None => {},
        }
        at = at + 1;
    }
    values
}

/// Puts `filler` in the place of every missing value of `column`.
pub fn fill_missing(column: &mut Column<Option<Numeric>>, filler: Numeric)
    ensures
        final(column)@ == filled(old(column)@, filler),
        final(column).same_labels(old(column)),
{
    let count = column.len();
    let mut at: usize = 0;
    while at < count
        invariant
            at <= count,
            count == column@.len(),
            column@.len() == old(column)@.len(),
            column.same_labels(old(column)),
            forall|i: int| 0 <= i < at ==> column@[i] == filled(old(column)@, filler)[i],
            forall|i: int| at <= i < count ==> column@[i] == old(column)@[i],
        decreases count - at,
    {
        match column.get_mut(at) {
            Some(slot) => {
                if slot.is_none() {
                    *slot = Some(filler);
                }
            },
            None => {},
        }
        at = at + 1;
    }
    assert(column@ =~= filled(old(column)@, filler));
}

impl Scrubber {
    /// What this scrubber fills the missing values in with, or why it
    /// cannot: without a value that is present there is nothing to go by
    /// (`EmptyInput`).
    pub open spec fn filler(&self, values: Seq<Option<Numeric>>) -> Result<Numeric, PipelineError> {
        let known = present(values, values.len() as int);
        if known.len() == 0 {
            Err(PipelineError::EmptyInput)
        } else {
            match self {
                Scrubber::Mean => Ok(crate::models::null::mean_of(known) as Numeric),
                Scrubber::Mode => Ok(crate::models::mode_first(known)),
            }
        }
    }

    /// The values as this scrubber leaves them, or why it cannot clean them.
    pub open spec fn cleaned(&self, values: Seq<Option<Numeric>>) -> Result<Seq<Option<Numeric>>, PipelineError> {
        match self.filler(values) {
            Ok(filler) => Ok(filled(values, filler)),
            Err(error) => Err(error),
        }
    }

    /// Fills in the missing values of `column` in the way that `self`
    /// names. A column that cannot be cleaned stays as it is.
    pub fn clean(&self, column: &mut Column<Option<Numeric>>) -> (done: Result<(), PipelineError>)
        ensures
            final(column).same_labels(old(column)),
            match self.cleaned(old(column)@) {
                Ok(values) => done is Ok && final(column)@ == values,
                Err(error) => done == Err::<(), PipelineError>(error) && final(column)@ == old(column)@,
            },
    {
        match self {
            Scrubber::Mean => MeanScrubber::clean(column),
            Scrubber::Mode => ModeScrubber::clean(column),
        }
    }
}

/// Whether every column that has row `row` has a value there.
pub open spec fn is_complete_row(table: Seq<Seq<Option<Numeric>>>, row: int) -> bool {
    forall|c: int| 0 <= c < table.len() && row < (#[trigger] table[c]).len() ==> table[c][row] is Some
}

/// The values of `column` in those of its first `upto` rows that miss no
/// value in any column of `table`.
pub open spec fn complete_values(table: Seq<Seq<Option<Numeric>>>, column: Seq<Option<Numeric>>, upto: int) -> Seq<
    Numeric,
>
    decreases upto,
{
    if upto <= 0 {
        Seq::empty()
    } else if is_complete_row(table, upto - 1) && column[upto - 1] is Some {
        complete_values(table, column, upto - 1).push(column[upto - 1].unwrap())
    } else {
        complete_values(table, column, upto - 1)
    }
}

/// The values of the columns.
pub open spec fn values_of(table: Seq<Column<Option<Numeric>>>) -> Seq<Seq<Option<Numeric>>> {
    table.map_values(|column: Column<Option<Numeric>>| column@)
}

/// Whether `cleaned` is `table` without the rows that miss a value:
/// column for column the values of the other rows, under the same header
/// and with the same dictionary.
pub open spec fn is_amputated(table: Seq<Column<Option<Numeric>>>, cleaned: Seq<Column<Numeric>>) -> bool {
    &&& cleaned.len() == table.len()
    &&& forall|c: int|
        0 <= c < table.len() ==> (#[trigger] cleaned[c])@ == complete_values(
            values_of(table),
            table[c]@,
            table[c]@.len() as int,
        ) && cleaned[c].name_view() == table[c].name_view() && cleaned[c].metadata_view()
            == table[c].metadata_view()
}

/// How many of the first `upto` rows miss no value.
pub open spec fn complete_rows(table: Seq<Seq<Option<Numeric>>>, upto: int) -> nat
    decreases upto,
{
    if upto <= 0 {
        0
    } else if is_complete_row(table, upto - 1) {
        complete_rows(table, upto - 1) + 1
    } else {
        complete_rows(table, upto - 1)
    }
}

/// What is left of a column of a table has as many values as the table has
/// rows that miss no value, as far as the column reaches. So a table whose
/// columns are equally long is left with columns that are equally long.
pub proof fn lemma_complete_values_len(table: Seq<Seq<Option<Numeric>>>, c: int, upto: int)
    requires
        0 <= c < table.len(),
        0 <= upto <= table[c].len(),
    ensures
        complete_values(table, table[c], upto).len() == complete_rows(table, upto),
    decreases upto,
{
    if upto > 0 {
        lemma_complete_values_len(table, c, upto - 1);
        if is_complete_row(table, upto - 1) {
            assert(table[c][upto - 1] is Some);
        }
    }
}

/// Whether row `row` misses no value in any of the first `upto` columns that have it.
pub open spec fn is_complete_upto(table: Seq<Seq<Option<Numeric>>>, row: int, upto: int) -> bool {
    forall|c: int| 0 <= c < upto && row < (#[trigger] table[c]).len() ==> table[c][row] is Some
}

/// Whether row `row` misses no value in any column of `table` that has it.
pub fn row_is_complete(table: &DataFrame<Option<Numeric>>, row: usize) -> (complete: bool)
    ensures
        complete == is_complete_row(values_of(table@), row as int),
{
    let columns = table.columns();
    let ghost values = values_of(table@);
    let mut c: usize = 0;
    while c < columns.len()
        invariant
            c <= columns@.len(),
            columns@ == table@,
            values == values_of(table@),
            is_complete_upto(values, row as int, c as int),
        decreases columns@.len() - c,
    {
        assert(values[c as int] == columns@[c as int]@);
        match columns[c].get(row) {
            Some(value) => {
                if value.is_none() {
                    return false;
                }
            },
            None => {},
        }
        c = c + 1;
    }
    true
}

/// Takes the rows that miss a value out of `table`.
pub fn amputate(table: DataFrame<Option<Numeric>>) -> (cleaned: Result<DataFrame<Numeric>, PipelineError>)
    ensures
        cleaned is Ok,
        is_amputated(table@, cleaned.unwrap()@),
{
    broadcast use vstd::std_specs::hash::group_hash_axioms;

    let columns = table.columns();
    let ghost values = values_of(table@);
    let mut ret: DataFrame<Numeric> = DataFrame::new();
    let mut c: usize = 0;
    while c < columns.len()
        invariant
            c <= columns@.len(),
            columns@ == table@,
            values == values_of(table@),
            ret@.len() == c,
            forall|b: int|
                0 <= b < c ==> (#[trigger] ret@[b])@ == complete_values(values, table@[b]@, table@[b]@.len() as int)
                    && ret@[b].name_view() == table@[b].name_view() && ret@[b].metadata_view()
                    == table@[b].metadata_view(),
        decreases columns@.len() - c,
    {
        let column = &columns[c];
        let all = column.values();
        let mut clean_col: Column<Numeric> = Column::new();
        let mut row: usize = 0;
        while row < all.len()
            invariant
                row <= all@.len(),
                all@ == column@,
                values == values_of(table@),
                clean_col@ == complete_values(values, all@, row as int),
                clean_col.name_view() is None,
                clean_col.metadata_view() is None,
            decreases all@.len() - row,
        {
            match all[row] {
                Some(value) => {
                    if row_is_complete(&table, row) {
                        clean_col.push(value);
                    }
                },
                None => {},
            }
            row = row + 1;
        }
        match column.get_name() {
            Some(name) => {
                clean_col.set_name(name.to_owned());
            },
            None => {},
        }
        match column.get_metadata() {
            Some(metadata) => {
                clean_col.set_metadata(metadata.clone());
            },
            None => {},
        }
        ret.add_column(clean_col);
        c = c + 1;
    }
    Ok(ret)
}

/// The values of the columns after the first `upto` steps of the
/// scrubbing, or the error of the first step that fails: a step names a
/// scrubber (an unknown name is `InvalidConfig`) and a column, and a step
/// for a column that the table does not have changes nothing.
pub open spec fn scrubbed(table: Seq<Seq<Option<Numeric>>>, steps: Seq<ScrubbingStageConfigs>, upto: int) -> Result<
    Seq<Seq<Option<Numeric>>>,
    PipelineError,
>
    decreases upto,
{
    if upto <= 0 {
        Ok(table)
    } else {
        match scrubbed(table, steps, upto - 1) {
            Err(error) => Err(error),
            Ok(before) => match scrubber_named(steps[upto - 1].name@) {
                None => Err(PipelineError::InvalidConfig),
                Some(scrubber) => if steps[upto - 1].index < before.len() {
                    match scrubber.cleaned(before[steps[upto - 1].index as int]) {
                        Ok(values) => Ok(before.update(steps[upto - 1].index as int, values)),
                        Err(error) => Err(error),
                    }
                } else {
                    Ok(before)
                },
            },
        }
    }
}

/// Once a step of the scrubbing has failed, the scrubbing has failed.
pub proof fn lemma_scrubbed_fails(
    table: Seq<Seq<Option<Numeric>>>,
    steps: Seq<ScrubbingStageConfigs>,
    failed: int,
    upto: int,
)
    requires
        failed <= upto,
        scrubbed(table, steps, failed) is Err,
    ensures
        scrubbed(table, steps, upto) == scrubbed(table, steps, failed),
    decreases upto - failed,
{
    if failed < upto {
        lemma_scrubbed_fails(table, steps, failed, upto - 1);
    }
}

/// Whether `other` has the columns of `table` with the same headers and
/// dictionaries.
pub open spec fn same_shape(table: Seq<Column<Option<Numeric>>>, other: Seq<Column<Option<Numeric>>>) -> bool {
    &&& other.len() == table.len()
    &&& forall|c: int| 0 <= c < table.len() ==> (#[trigger] other[c]).same_labels(&table[c])
}

/// Cleans the columns of `table` step by step as `parameters` say and
/// takes out the rows that still miss a value.
pub fn scrub(table: DataFrame<Option<Numeric>>, parameters: Vec<ScrubbingStageConfigs>) -> (cleaned: Result<
    DataFrame<Numeric>,
    PipelineError,
>)
    ensures
        match scrubbed(values_of(table@), parameters@, parameters@.len() as int) {
            Err(error) => cleaned matches Err(raised) && raised == error,
            Ok(values) => cleaned is Ok && exists|filled: Seq<Column<Option<Numeric>>>|
                #![trigger is_amputated(filled, cleaned.unwrap()@)]
                same_shape(table@, filled) && values_of(filled) == values && is_amputated(
                    filled,
                    cleaned.unwrap()@,
                ),
        },
{
    let mut working = table;
    let mut at: usize = 0;
    while at < parameters.len()
        invariant
            at <= parameters@.len(),
            same_shape(table@, working@),
            scrubbed(values_of(table@), parameters@, at as int) == Ok::<
                Seq<Seq<Option<Numeric>>>,
                PipelineError,
            >(values_of(working@)),
        decreases parameters@.len() - at,
    {
        let scrubber = match get_scrubber(parameters[at].name.as_str()) {
            Ok(scrubber) => scrubber,
            Err(error) => {
                proof {
                    lemma_scrubbed_fails(values_of(table@), parameters@, at + 1, parameters@.len() as int);
                }
                return Err(error);
            },
        };
        let ghost before = working@;
        let index = parameters[at].index;
        match working.get_column_idx_mut(index) {
            Some(column) => {
                match scrubber.clean(column) {
                    Ok(()) => {},
                    Err(error) => {
                        proof {
                            assert(values_of(before)[index as int] == before[index as int]@);
                            lemma_scrubbed_fails(values_of(table@), parameters@, at + 1, parameters@.len() as int);
                        }
                        return Err(error);
                    },
                }
            },
            None => {},
        }
        proof {
            if index < before.len() {
                assert(values_of(before)[index as int] == before[index as int]@);
                assert(values_of(working@) =~= values_of(before).update(index as int, working@[index as int]@));
            }
            assert forall|c: int| 0 <= c < table@.len() implies (#[trigger] working@[c]).same_labels(&table@[c]) by {
                assert(before[c].same_labels(&table@[c]));
            }
        }
        at = at + 1;
    }
    amputate(working)
}

} // verus!

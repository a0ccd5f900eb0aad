//! Stratified folds by whole-number classes: two rows are of one class
//! where their labels have the same whole part.

use crate::data::data_frame::DataFrame;
use crate::models::null::toward_zero;
use crate::types::{Numeric, PipelineError, NUMERIC_SCALE};
use crate::validation::kfold_stratified::{stratified_rows, StratifiedKFold};
use rand::rngs::StdRng;
use vstd::prelude::*;

verus! {

/// The partitioner that stratifies by whole-number classes.
pub struct StratifiedCrossValidation;

/// The whole parts of the labels, each as a class key.
pub open spec fn whole_parts(labels: Seq<Numeric>) -> Seq<Numeric> {
    Seq::new(labels.len(), |i: int| toward_zero(labels[i] as int, NUMERIC_SCALE as int) as Numeric)
}

/// The whole part of every label.
pub fn whole_classes(labels: &[Numeric]) -> (classes: Vec<Numeric>)
    ensures
        classes@ == whole_parts(labels@),
{
    let mut classes: Vec<Numeric> = Vec::new();
    let mut at: usize = 0;
    while at < labels.len()
        invariant
            at <= labels@.len(),
            classes@ == whole_parts(labels@).take(at as int),
        decreases labels@.len() - at,
    {
        let label = labels[at];
        let whole: Numeric = if label >= 0 {
            label / NUMERIC_SCALE
        } else {
            let size: u64 = (-(label as i128)) as u64;
            let quotient: u64 = size / (NUMERIC_SCALE as u64);
            assert(quotient <= 92_233_720_369) by (nonlinear_arith)
                requires
                    quotient == size / 100_000_000,
                    size <= 0x8000_0000_0000_0000,
            ;
            -(quotient as i64)
        };
        classes.push(whole);
        at = at + 1;
        assert(classes@ =~= whole_parts(labels@).take(at as int));
    }
    assert(whole_parts(labels@).take(at as int) == whole_parts(labels@));
    classes
}

impl StratifiedCrossValidation {
    /// Deals the rows of `table` into `k` folds so that every fold
    /// validates on its share of each whole-number class.
    ///
    /// A target column that the table does not have and fewer than two
    /// folds are `InvalidParams`.
    pub fn partition(table: &DataFrame<Numeric>, target_idx: usize, k: usize, rng: &mut StdRng) -> (folds: Result<
        Vec<(Vec<usize>, Vec<usize>)>,
        PipelineError,
    >)
        ensures
            folds is Err <==> target_idx >= table@.len() || k < 2,
            folds matches Err(error) ==> error == PipelineError::InvalidParams,
            folds is Ok ==> StratifiedKFold::deals_labels(
                whole_parts(table@[target_idx as int]@),
                k as int,
                folds.unwrap()@,
            ),
    {
        let target_values = match table.get_column_idx(target_idx) {
            Some(column) => column,
            None => {
                return Err(PipelineError::InvalidParams);
            },
        };
        if k < 2 {
            return Err(PipelineError::InvalidParams);
        }
        let classes = whole_classes(target_values.values());
        Ok(stratified_rows(classes.as_slice(), k, rng))
    }
}

} // verus!

//! The error rate: the share of the answers that miss the class of their
//! sample by more than the tolerance.

use crate::evaluation::{check_scoring, scoring_fault};
use crate::models::knn::examples_view;
use crate::models::null::classes_of;
use crate::types::{Numeric, PipelineError, NUMERIC_DIGIT_PRECISION, NUMERIC_SCALE};
use vstd::prelude::*;

verus! {

/// The evaluator that scores answers by their error rate.
pub struct ClassificationScoreEvaluator;

/// Whether `prediction` misses `class` by more than the tolerance.
pub open spec fn misses(prediction: Numeric, class: Numeric) -> bool {
    prediction - class > NUMERIC_DIGIT_PRECISION || class - prediction > NUMERIC_DIGIT_PRECISION
}

/// How many of the first `upto` predictions miss the class of their sample.
pub open spec fn error_count(predictions: Seq<Numeric>, classes: Seq<Numeric>, upto: int) -> int
    decreases upto,
{
    if upto <= 0 {
        0
    } else if misses(predictions[upto - 1], classes[upto - 1]) {
        error_count(predictions, classes, upto - 1) + 1
    } else {
        error_count(predictions, classes, upto - 1)
    }
}

/// The share of the predictions that miss, as a fixed-point number rounded
/// down: one stands for "all of them".
pub open spec fn error_rate(predictions: Seq<Numeric>, classes: Seq<Numeric>) -> Numeric {
    (error_count(predictions, classes, predictions.len() as int) * NUMERIC_SCALE / (
    predictions.len() as int)) as Numeric
}

/// No more predictions miss than there are.
pub proof fn lemma_error_count_bounds(predictions: Seq<Numeric>, classes: Seq<Numeric>, upto: int)
    requires
        0 <= upto,
    ensures
        0 <= error_count(predictions, classes, upto) <= upto,
    decreases upto,
{
    if upto > 0 {
        lemma_error_count_bounds(predictions, classes, upto - 1);
    }
}

/// Answers that are the classes themselves have an error rate of zero.
pub proof fn lemma_error_rate_of_truth(classes: Seq<Numeric>)
    requires
        classes.len() > 0,
    ensures
        error_rate(classes, classes) == 0,
{
    lemma_no_errors_in_truth(classes, classes.len() as int);
    assert(0 * NUMERIC_SCALE / (classes.len() as int) == 0) by (nonlinear_arith)
        requires
            classes.len() > 0,
    ;
}

/// Among answers that are the classes themselves none misses.
pub proof fn lemma_no_errors_in_truth(classes: Seq<Numeric>, upto: int)
    ensures
        error_count(classes, classes, upto) == 0,
    decreases upto,
{
    if upto > 0 {
        lemma_no_errors_in_truth(classes, upto - 1);
    }
}

/// The error rate lies between zero and one.
pub proof fn lemma_error_rate_bounds(predictions: Seq<Numeric>, classes: Seq<Numeric>)
    requires
        predictions.len() > 0,
    ensures
        0 <= error_count(predictions, classes, predictions.len() as int) * NUMERIC_SCALE / (
        predictions.len() as int) <= NUMERIC_SCALE,
{
    let n = predictions.len() as int;
    let e = error_count(predictions, classes, n);
    lemma_error_count_bounds(predictions, classes, n);
    assert(0 <= e * NUMERIC_SCALE / n <= NUMERIC_SCALE) by (nonlinear_arith)
        requires
            0 <= e <= n,
            n > 0,
    ;
}

impl ClassificationScoreEvaluator {
    /// The error rate of `predictions` against the classes of `training_samples`.
    pub fn evaluate(predictions: &[Numeric], training_samples: &[Vec<Numeric>], training_label_idx: usize) -> (score:
        Result<Numeric, PipelineError>)
        ensures
            score == match scoring_fault(
                predictions@,
                examples_view(training_samples@),
                training_label_idx as int,
            ) {
                Some(error) => Err::<Numeric, PipelineError>(error),
                None => Ok(
                    error_rate(
                        predictions@,
                        classes_of(examples_view(training_samples@), training_label_idx as int),
                    ),
                ),
            },
    {
        match check_scoring(predictions, training_samples, training_label_idx) {
            Some(error) => {
                return Err(error);
            },
            None => {},
        }
        let num_samples = training_samples.len();
        let ghost classes = classes_of(examples_view(training_samples@), training_label_idx as int);
        let mut errors: usize = 0;
        let mut at: usize = 0;
        while at < num_samples
            invariant
                at <= num_samples,
                num_samples == training_samples@.len(),
                num_samples == predictions@.len(),
                scoring_fault(predictions@, examples_view(training_samples@), training_label_idx as int) is None,
                classes == classes_of(examples_view(training_samples@), training_label_idx as int),
                errors == error_count(predictions@, classes, at as int),
                errors <= at,
            decreases num_samples - at,
        {
            proof {
                assert(examples_view(training_samples@)[at as int] == training_samples@[at as int]@);
            }
            let gap: i128 = predictions[at] as i128 - training_samples[at][training_label_idx] as i128;
            if gap > NUMERIC_DIGIT_PRECISION as i128 || -gap > NUMERIC_DIGIT_PRECISION as i128 {
                errors = errors + 1;
            }
            at = at + 1;
        }
        proof {
            lemma_error_rate_bounds(predictions@, classes);
            assert(errors * NUMERIC_SCALE <= usize::MAX * NUMERIC_SCALE) by (nonlinear_arith)
                requires
                    0 <= errors <= usize::MAX,
            ;
        }
        let scaled: u128 = (errors as u128) * (NUMERIC_SCALE as u128);
        let rate: u128 = scaled / (num_samples as u128);
        Ok(rate as Numeric)
    }
}

} // verus!

//! The mean squared error: the squared gaps between the answers and the
//! classes of their samples, summed and divided by their number.

use crate::evaluation::{check_scoring, scoring_fault};
use crate::models::knn::{examples_view, saturated};
use crate::models::null::classes_of;
use crate::types::{Numeric, PipelineError, NUMERIC_SCALE};
use vstd::prelude::*;

verus! {

/// The evaluator that scores answers by their mean squared error.
pub struct MeanSquaredErrorEvaluator;

/// The sum of the squared gaps between the first `upto` predictions and the
/// classes of their samples, in squared units.
pub open spec fn squared_errors(predictions: Seq<Numeric>, classes: Seq<Numeric>, upto: int) -> int
    decreases upto,
{
    if upto <= 0 {
        0
    } else {
        squared_errors(predictions, classes, upto - 1) + (classes[upto - 1] - predictions[upto - 1]) * (
        classes[upto - 1] - predictions[upto - 1])
    }
}

/// The mean squared error as a fixed-point number, rounded down: the sum of
/// the squared gaps, held in 128 bits, over the number of predictions, and
/// that brought from squared units back to units. An error too large for a
/// number counts as the largest number.
pub open spec fn mean_squared_error(predictions: Seq<Numeric>, classes: Seq<Numeric>) -> Numeric {
    let mean = saturated(squared_errors(predictions, classes, predictions.len() as int)) / ((
    predictions.len() * NUMERIC_SCALE) as u128);
    if mean > i64::MAX {
        i64::MAX
    } else {
        mean as Numeric
    }
}

/// A sum of squared gaps is not negative.
pub proof fn lemma_squared_errors_nonnegative(predictions: Seq<Numeric>, classes: Seq<Numeric>, upto: int)
    ensures
        squared_errors(predictions, classes, upto) >= 0,
    decreases upto,
{
    if upto > 0 {
        lemma_squared_errors_nonnegative(predictions, classes, upto - 1);
        let gap = classes[upto - 1] - predictions[upto - 1];
        assert(gap * gap >= 0) by (nonlinear_arith);
    }
}

/// The squared gaps between a sequence and itself sum to zero.
pub proof fn lemma_squared_errors_of_truth(classes: Seq<Numeric>, upto: int)
    ensures
        squared_errors(classes, classes, upto) == 0,
    decreases upto,
{
    if upto > 0 {
        lemma_squared_errors_of_truth(classes, upto - 1);
    }
}

/// The squared gaps sum to the same, whichever of the two sequences is
/// taken for the answers.
pub proof fn lemma_squared_errors_symmetric(first: Seq<Numeric>, second: Seq<Numeric>, upto: int)
    ensures
        squared_errors(first, second, upto) == squared_errors(second, first, upto),
    decreases upto,
{
    if upto > 0 {
        lemma_squared_errors_symmetric(first, second, upto - 1);
        let gap = second[upto - 1] - first[upto - 1];
        let back = first[upto - 1] - second[upto - 1];
        assert(gap * gap == back * back) by (nonlinear_arith)
            requires
                gap == -back,
        ;
    }
}

/// The mean squared error of answers against themselves is zero, that of
/// two sequences of one length is the same either way round, and it is
/// never negative.
pub proof fn lemma_mean_squared_error_laws(first: Seq<Numeric>, second: Seq<Numeric>)
    requires
        first.len() == second.len(),
        0 < first.len() <= usize::MAX,
    ensures
        mean_squared_error(first, first) == 0,
        mean_squared_error(first, second) == mean_squared_error(second, first),
        mean_squared_error(first, second) >= 0,
{
    let n = first.len() as int;
    lemma_squared_errors_of_truth(first, n);
    lemma_squared_errors_symmetric(first, second, n);
    lemma_squared_errors_nonnegative(first, second, n);
    let divisor = n * NUMERIC_SCALE;
    assert(0 < divisor <= usize::MAX * NUMERIC_SCALE) by (nonlinear_arith)
        requires
            0 < n <= usize::MAX,
            divisor == n * NUMERIC_SCALE,
    ;
    assert(0int / divisor == 0) by (nonlinear_arith)
        requires
            divisor > 0,
    ;
    let sum = saturated(squared_errors(first, second, n)) as int;
    assert(sum / divisor >= 0) by (nonlinear_arith)
        requires
            sum >= 0,
            divisor > 0,
    ;
}

impl MeanSquaredErrorEvaluator {
    /// The mean squared error of `predictions` against the classes of
    /// `training_samples`.
    pub fn evaluate(predictions: &[Numeric], training_samples: &[Vec<Numeric>], training_label_idx: usize) -> (score:
        Result<Numeric, PipelineError>)
        ensures
            score == match scoring_fault(
                predictions@,
                examples_view(training_samples@),
                training_label_idx as int,
            ) {
                Some(error) => Err::<Numeric, PipelineError>(error),
                None => Ok(
                    mean_squared_error(
                        predictions@,
                        classes_of(examples_view(training_samples@), training_label_idx as int),
                    ),
                ),
            },
    {
        match check_scoring(predictions, training_samples, training_label_idx) {
            Some(error) => {
                return Err(error);
            },
            None => {},
        }
        let num_samples = training_samples.len();
        let ghost classes = classes_of(examples_view(training_samples@), training_label_idx as int);
        let mut sum: u128 = 0;
        let mut at: usize = 0;
        while at < num_samples
            invariant
                at <= num_samples,
                num_samples == training_samples@.len(),
                num_samples == predictions@.len(),
                scoring_fault(predictions@, examples_view(training_samples@), training_label_idx as int) is None,
                classes == classes_of(examples_view(training_samples@), training_label_idx as int),
                sum == saturated(squared_errors(predictions@, classes, at as int)),
            decreases num_samples - at,
        {
            proof {
                assert(examples_view(training_samples@)[at as int] == training_samples@[at as int]@);
                lemma_squared_errors_nonnegative(predictions@, classes, at as int);
            }
            let class = training_samples[at][training_label_idx];
            let prediction = predictions[at];
            let gap: u128 = if class >= prediction {
                (class as i128 - prediction as i128) as u128
            } else {
                (prediction as i128 - class as i128) as u128
            };
            proof {
                let signed = class - prediction;
                assert(gap * gap == signed * signed && gap * gap <= u128::MAX) by (nonlinear_arith)
                    requires
                        gap == signed || gap == -signed,
                        gap <= 0xffff_ffff_ffff_ffff,
                ;
            }
            sum = sum.saturating_add(gap * gap);
            at = at + 1;
        }
        proof {
            assert(0 < num_samples * NUMERIC_SCALE <= usize::MAX * NUMERIC_SCALE) by (nonlinear_arith)
                requires
                    0 < num_samples <= usize::MAX,
            ;
        }
        let divisor: u128 = (num_samples as u128) * (NUMERIC_SCALE as u128);
        let mean: u128 = sum / divisor;
        if mean > i64::MAX as u128 {
            Ok(i64::MAX)
        } else {
            Ok(mean as Numeric)
        }
    }
}

} // verus!

//! Evaluators: how the answers of a model are scored against the classes
//! of the samples they were given for.

pub mod classification_score;
pub mod mse;

use crate::evaluation::classification_score::ClassificationScoreEvaluator;
use crate::evaluation::mse::MeanSquaredErrorEvaluator;
use crate::models::knn::{all_labelled, examples_view};
use crate::types::{Numeric, PipelineError};
use vstd::prelude::*;

verus! {

/// Why `predictions` cannot be scored against `samples`, if they cannot:
/// they are not as many (`ShapeMismatch`), there are none (`EmptyInput`), or
/// a sample has no place `label_index` (`OutOfBounds`).
pub open spec fn scoring_fault(predictions: Seq<Numeric>, samples: Seq<Seq<Numeric>>, label_index: int) -> Option<
    PipelineError,
> {
    if predictions.len() != samples.len() {
        Some(PipelineError::ShapeMismatch)
    } else if samples.len() == 0 {
        Some(PipelineError::EmptyInput)
    } else if !all_labelled(samples, label_index) {
        Some(PipelineError::OutOfBounds)
    } else {
        None
    }
}

/// Looks for what stands in the way of scoring `predictions` against `samples`.
pub fn check_scoring(predictions: &[Numeric], samples: &[Vec<Numeric>], label_idx: usize) -> (fault: Option<
    PipelineError,
>)
    ensures
        fault == scoring_fault(predictions@, examples_view(samples@), label_idx as int),
{
    if predictions.len() != samples.len() {
        return Some(PipelineError::ShapeMismatch);
    }
    if samples.len() == 0 {
        return Some(PipelineError::EmptyInput);
    }
    let mut at: usize = 0;
    while at < samples.len()
        invariant
            at <= samples@.len(),
            predictions@.len() == samples@.len(),
            forall|i: int| 0 <= i < at ==> label_idx < (#[trigger] examples_view(samples@)[i]).len(),
        decreases samples@.len() - at,
    {
        assert(examples_view(samples@)[at as int] == samples@[at as int]@);
        if label_idx >= samples[at].len() {
            assert(examples_view(samples@)[at as int].len() <= label_idx);
            return Some(PipelineError::OutOfBounds);
        }
        at = at + 1;
    }
    None
}

/// The ways of scoring answers.
#[derive(Clone, Copy, Debug, PartialEq, Eq, Structural)]
pub enum Evaluator {
    ClassificationScore,
    MeanSquaredError,
}

impl Evaluator {
    /// What this evaluator makes of `predictions` for samples of the given `classes`.
    pub open spec fn score_of(&self, predictions: Seq<Numeric>, classes: Seq<Numeric>) -> Numeric {
        match self {
            Evaluator::ClassificationScore => classification_score::error_rate(predictions, classes),
            Evaluator::MeanSquaredError => mse::mean_squared_error(predictions, classes),
        }
    }

    /// Scores `predictions` against the classes of `training_samples` in the
    /// way that `self` names.
    pub fn evaluate(&self, predictions: &[Numeric], training_samples: &[Vec<Numeric>], training_label_idx: usize) -> (score:
        Result<Numeric, PipelineError>)
        ensures
            score == match scoring_fault(
                predictions@,
                examples_view(training_samples@),
                training_label_idx as int,
            ) {
                Some(error) => Err::<Numeric, PipelineError>(error),
                None => Ok(
                    self.score_of(
                        predictions@,
                        crate::models::null::classes_of(
                            examples_view(training_samples@),
                            training_label_idx as int,
                        ),
                    ),
                ),
            },
    {
        match self {
            Evaluator::ClassificationScore => ClassificationScoreEvaluator::evaluate(
                predictions,
                training_samples,
                training_label_idx,
            ),
            Evaluator::MeanSquaredError => MeanSquaredErrorEvaluator::evaluate(
                predictions,
                training_samples,
                training_label_idx,
            ),
        }
    }
}

/// The evaluator that `name` stands for, if it stands for one:
/// `classification-score` or `mse`.
pub open spec fn evaluator_named(name: Seq<char>) -> Option<Evaluator> {
    if name == "classification-score"@ {
        Some(Evaluator::ClassificationScore)
    } else if name == "mse"@ {
        Some(Evaluator::MeanSquaredError)
    } else {
        None
    }
}

/// The evaluator that goes by `name`; a name that stands for none is `NotFound`.
pub fn get_evaluator(name: &str) -> (found: Result<Evaluator, PipelineError>)
    ensures
        found == match evaluator_named(name@) {
            Some(named) => Ok::<Evaluator, PipelineError>(named),
            None => Err(PipelineError::NotFound),
        },
{
    let wanted = name.to_owned();
    if wanted == "classification-score".to_owned() {
        Ok(Evaluator::ClassificationScore)
    } else if wanted == "mse".to_owned() {
        Ok(Evaluator::MeanSquaredError)
    } else {
        Err(PipelineError::NotFound)
    }
}

} // verus!

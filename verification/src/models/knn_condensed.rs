//! The condensing trainer: it goes through the training samples once and
//! keeps as references only those that the references kept so far get wrong.

use crate::dictionary::Dictionary;
use crate::models::knn::{
    all_labelled, check_training, copy_sample, examples_view, misclassified, KNearestNeighbor,
};
use crate::models::knn_simple::{build_fault, choose_settings, chosen_settings, copy_samples, settings_of};
use crate::types::{Numeric, PipelineError, NUMERIC_DIGIT_PRECISION};
use vstd::prelude::*;

verus! {

/// The trainer of condensed k-nearest-neighbour models.
pub struct CondensedKNearestNeighborTrainer {
    /// The settings that the next model is built with, if any were given.
    pub hyperparameters: Option<Dictionary<String>>,
    /// The number of neighbours of a model built without settings.
    pub num_neighbors: usize,
    /// How far the answer of the references may lie from the class of a
    /// sample that is passed over.
    pub epsilon: Numeric,
    /// Whether a diagram of the references is wanted after a build.
    pub show_voronoi: bool,
}

/// The references kept once the first `upto` training samples are gone
/// through: the first sample, and every later one that the references kept
/// before it get wrong.
pub open spec fn condensed(training: Seq<Seq<Numeric>>, label_index: int, k: int, epsilon: Numeric, upto: int) -> Seq<
    Seq<Numeric>,
>
    decreases upto,
{
    if upto <= 1 {
        seq![training[0]]
    } else {
        let kept = condensed(training, label_index, k, epsilon, upto - 1);
        if misclassified(kept, training[upto - 1], label_index, k, epsilon) {
            kept.push(training[upto - 1])
        } else {
            kept
        }
    }
}

/// Every reference of the condensed set is one of the training samples.
pub proof fn lemma_condensed_subset(
    training: Seq<Seq<Numeric>>,
    label_index: int,
    k: int,
    epsilon: Numeric,
    upto: int,
)
    requires
        1 <= upto <= training.len(),
    ensures
        1 <= condensed(training, label_index, k, epsilon, upto).len() <= upto,
        forall|j: int|
            0 <= j < condensed(training, label_index, k, epsilon, upto).len() ==> training.take(upto).contains(
                #[trigger] condensed(training, label_index, k, epsilon, upto)[j],
            ),
    decreases upto,
{
    let kept = condensed(training, label_index, k, epsilon, upto);
    if upto <= 1 {
        assert(training.take(upto)[0] == training[0]);
    } else {
        lemma_condensed_subset(training, label_index, k, epsilon, upto - 1);
        let before = condensed(training, label_index, k, epsilon, upto - 1);
        assert forall|j: int| 0 <= j < kept.len() implies training.take(upto).contains(#[trigger] kept[j]) by {
            if j < before.len() {
                assert(training.take(upto - 1).contains(before[j]));
                let at = choose|at: int| 0 <= at < upto - 1 && #[trigger] training.take(upto - 1)[at] == before[j];
                assert(training.take(upto)[at] == kept[j]);
            } else {
                assert(training.take(upto)[upto - 1] == kept[j]);
            }
        }
    }
}

/// A training sample that the condensed set passes over is one that the
/// references kept before it get right.
pub proof fn lemma_condensed_skips(
    training: Seq<Seq<Numeric>>,
    label_index: int,
    k: int,
    epsilon: Numeric,
    i: int,
)
    requires
        1 <= i < training.len(),
    ensures
        condensed(training, label_index, k, epsilon, i + 1) == condensed(training, label_index, k, epsilon, i)
            ==> !misclassified(condensed(training, label_index, k, epsilon, i), training[i], label_index, k, epsilon),
{
    lemma_condensed_subset(training, label_index, k, epsilon, i);
}

impl CondensedKNearestNeighborTrainer {
    pub fn new() -> (trainer: Self)
        ensures
            trainer.hyperparameters is None,
            trainer.num_neighbors == 1,
            trainer.epsilon == NUMERIC_DIGIT_PRECISION,
            !trainer.show_voronoi,
    {
        Self { hyperparameters: None, num_neighbors: 1, epsilon: NUMERIC_DIGIT_PRECISION, show_voronoi: false }
    }

    /// Keeps a copy of `features` as the settings of the models to come.
    pub fn with_hyperparameters(&mut self, features: &Dictionary<String>) -> (done: Result<(), PipelineError>)
        ensures
            done is Ok,
            final(self).hyperparameters is Some,
            final(self).hyperparameters.unwrap()@ == features@,
            final(self).num_neighbors == old(self).num_neighbors,
            final(self).epsilon == old(self).epsilon,
            final(self).show_voronoi == old(self).show_voronoi,
    {
        self.hyperparameters = Some(features.duplicate());
        Ok(())
    }

    /// Whether `built` is what this trainer makes of `training`: the fault
    /// that stands in the way, or a model whose references are the condensed
    /// set of the training samples.
    pub open spec fn builds(
        &self,
        training: Seq<Seq<Numeric>>,
        target_value_idx: usize,
        built: Result<KNearestNeighbor, PipelineError>,
    ) -> bool {
        match build_fault(
            training,
            target_value_idx as int,
            settings_of(self.hyperparameters),
            self.num_neighbors,
            self.epsilon,
        ) {
            Some(error) => built == Err::<KNearestNeighbor, PipelineError>(error),
            None => built is Ok && built.unwrap().label_index == target_value_idx && Ok::<
                (usize, Numeric),
                PipelineError,
            >((built.unwrap().num_neighbors, built.unwrap().epsilon)) == chosen_settings(
                settings_of(self.hyperparameters),
                self.num_neighbors,
                self.epsilon,
            ) && built.unwrap().is_usable() && built.unwrap().examples() == condensed(
                training,
                target_value_idx as int,
                built.unwrap().num_neighbors as int,
                self.epsilon,
                training.len() as int,
            ),
        }
    }

    /// Builds a model whose references are the condensed set of the
    /// training samples.
    pub fn build(&mut self, training_values: &[Vec<Numeric>], target_value_idx: usize) -> (built: Result<
        KNearestNeighbor,
        PipelineError,
    >)
        ensures
            *final(self) == *old(self),
            old(self).builds(examples_view(training_values@), target_value_idx, built),
    {
        match check_training(training_values, target_value_idx) {
            Some(error) => {
                return Err(error);
            },
            None => {},
        }
        let (num_neighbors, epsilon) = match choose_settings(
            &self.hyperparameters,
            self.num_neighbors,
            self.epsilon,
        ) {
            Ok(settled) => settled,
            Err(error) => {
                return Err(error);
            },
        };
        let ghost training = examples_view(training_values@);
        let label_examples = copy_samples(training_values, 1);
        let mut model = KNearestNeighbor {
            label_examples,
            label_index: target_value_idx,
            num_neighbors,
            epsilon,
        };
        proof {
            assert(model.examples() =~= condensed(
                training,
                target_value_idx as int,
                num_neighbors as int,
                self.epsilon,
                1,
            ));
        }
        let mut at: usize = 1;
        while at < training_values.len()
            invariant
                1 <= at <= training_values@.len(),
                training == examples_view(training_values@),
                all_labelled(training, target_value_idx as int),
                model.label_index == target_value_idx,
                model.num_neighbors == num_neighbors,
                num_neighbors >= 1,
                model.epsilon == epsilon,
                model.examples() == condensed(
                    training,
                    target_value_idx as int,
                    num_neighbors as int,
                    self.epsilon,
                    at as int,
                ),
                all_labelled(model.examples(), target_value_idx as int),
            decreases training_values@.len() - at,
        {
            let sample = &training_values[at];
            proof {
                assert(training[at as int] == sample@);
            }
            if model.misjudges(sample.as_slice(), self.epsilon) {
                let ghost before = model.examples();
                model.label_examples.push(copy_sample(sample));
                proof {
                    assert(model.examples() =~= before.push(sample@));
                }
            }
            at = at + 1;
        }
        proof {
            lemma_condensed_subset(
                training,
                target_value_idx as int,
                num_neighbors as int,
                self.epsilon,
                training_values@.len() as int,
            );
            assert forall|i: int| 0 <= i < model.label_examples@.len() implies model.label_index < (
            #[trigger] model.label_examples@[i])@.len() by {
                assert(model.examples()[i] == model.label_examples@[i]@);
            }
        }
        Ok(model)
    }
}

} // verus!

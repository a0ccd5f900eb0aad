//! The editing trainer: it starts from all training samples and goes
//! through them once from the last to the first, dropping every sample that
//! the other references get right.

use crate::dictionary::Dictionary;
use crate::models::knn::{
    all_labelled, check_training, copy_sample, examples_view, misclassified, KNearestNeighbor,
};
use crate::models::knn_simple::{build_fault, choose_settings, chosen_settings, copy_samples, settings_of};
use crate::types::{Numeric, PipelineError, NUMERIC_DIGIT_PRECISION};
use vstd::prelude::*;

verus! {

/// The trainer of edited k-nearest-neighbour models.
pub struct EditedKNearestNeighborTrainer {
    /// The settings that the next model is built with, if any were given.
    pub hyperparameters: Option<Dictionary<String>>,
    /// The number of neighbours of a model built without settings.
    pub num_neighbors: usize,
    /// How far the answer of the other references may lie from the class of
    /// a sample that is dropped.
    pub epsilon: Numeric,
    /// Whether a diagram of the references is wanted after a build.
    pub show_voronoi: bool,
}

/// The samples from place `from` on that the editing keeps, in the order in
/// which it puts them back: a later sample before an earlier one.
pub open spec fn edited_kept(training: Seq<Seq<Numeric>>, label_index: int, k: int, epsilon: Numeric, from: int) -> Seq<
    Seq<Numeric>,
>
    decreases training.len() - from,
{
    if from >= training.len() {
        Seq::empty()
    } else {
        let later = edited_kept(training, label_index, k, epsilon, from + 1);
        if misclassified(training.take(from) + later, training[from], label_index, k, epsilon) {
            later.push(training[from])
        } else {
            later
        }
    }
}

/// The references that sample `at` is held against when its turn comes: the
/// samples before it, which are still untouched, and then those behind it
/// that were kept.
pub open spec fn edited_others(training: Seq<Seq<Numeric>>, label_index: int, k: int, epsilon: Numeric, at: int) -> Seq<
    Seq<Numeric>,
> {
    training.take(at) + edited_kept(training, label_index, k, epsilon, at + 1)
}

/// The references that the editing leaves of `training`.
pub open spec fn edited(training: Seq<Seq<Numeric>>, label_index: int, k: int, epsilon: Numeric) -> Seq<Seq<Numeric>> {
    edited_kept(training, label_index, k, epsilon, 0)
}

/// Every sample that the editing keeps is a training sample from place
/// `from` on.
pub proof fn lemma_edited_subset(training: Seq<Seq<Numeric>>, label_index: int, k: int, epsilon: Numeric, from: int)
    requires
        0 <= from <= training.len(),
    ensures
        edited_kept(training, label_index, k, epsilon, from).len() <= training.len() - from,
        forall|j: int|
            0 <= j < edited_kept(training, label_index, k, epsilon, from).len() ==> training.contains(
                #[trigger] edited_kept(training, label_index, k, epsilon, from)[j],
            ),
    decreases training.len() - from,
{
    if from < training.len() {
        lemma_edited_subset(training, label_index, k, epsilon, from + 1);
        assert(training.contains(training[from]));
    }
}

/// A sample that the editing keeps was got wrong by the references that it
/// was held against when its turn came, and a sample that it drops was got
/// right by them.
pub proof fn lemma_edited_turn(training: Seq<Seq<Numeric>>, label_index: int, k: int, epsilon: Numeric, at: int)
    requires
        0 <= at < training.len(),
    ensures
        misclassified(edited_others(training, label_index, k, epsilon, at), training[at], label_index, k, epsilon)
            ==> edited_kept(training, label_index, k, epsilon, at) == edited_kept(
            training,
            label_index,
            k,
            epsilon,
            at + 1,
        ).push(training[at]),
        !misclassified(edited_others(training, label_index, k, epsilon, at), training[at], label_index, k, epsilon)
            ==> edited_kept(training, label_index, k, epsilon, at) == edited_kept(
            training,
            label_index,
            k,
            epsilon,
            at + 1,
        ),
{
}

/// The sample whose turn comes last, the first of the training samples, is
/// held against the final references without itself: if the editing keeps
/// it, it stands last among the references, and the references before it
/// get it wrong.
pub proof fn lemma_edited_last_turn(training: Seq<Seq<Numeric>>, label_index: int, k: int, epsilon: Numeric)
    requires
        training.len() >= 1,
        edited(training, label_index, k, epsilon) != edited_kept(training, label_index, k, epsilon, 1),
    ensures
        edited(training, label_index, k, epsilon).len() >= 1,
        edited(training, label_index, k, epsilon).last() == training[0],
        misclassified(
            edited(training, label_index, k, epsilon).drop_last(),
            training[0],
            label_index,
            k,
            epsilon,
        ),
{
    let later = edited_kept(training, label_index, k, epsilon, 1);
    assert(training.take(0) + later == later);
    assert(later.push(training[0]).drop_last() == later);
}

impl EditedKNearestNeighborTrainer {
    pub fn new() -> (trainer: Self)
        ensures
            trainer.hyperparameters is None,
            trainer.num_neighbors == 1,
            trainer.epsilon == NUMERIC_DIGIT_PRECISION,
            trainer.show_voronoi,
    {
        Self { hyperparameters: None, num_neighbors: 1, epsilon: NUMERIC_DIGIT_PRECISION, show_voronoi: true }
    }

    /// Keeps a copy of `features` as the settings of the models to come.
    pub fn with_hyperparameters(&mut self, features: &Dictionary<String>) -> (done: Result<(), PipelineError>)
        ensures
            done is Ok,
            final(self).hyperparameters is Some,
            final(self).hyperparameters.unwrap()@ == features@,
            final(self).num_neighbors == old(self).num_neighbors,
            final(self).epsilon == old(self).epsilon,
            final(self).show_voronoi == old(self).show_voronoi,
    {
        self.hyperparameters = Some(features.duplicate());
        Ok(())
    }

    /// Whether `built` is what this trainer makes of `training`: the fault
    /// that stands in the way, or a model whose references are what the
    /// editing leaves of the training samples.
    pub open spec fn builds(
        &self,
        training: Seq<Seq<Numeric>>,
        target_value_idx: usize,
        built: Result<KNearestNeighbor, PipelineError>,
    ) -> bool {
        match build_fault(
            training,
            target_value_idx as int,
            settings_of(self.hyperparameters),
            self.num_neighbors,
            self.epsilon,
        ) {
            Some(error) => built == Err::<KNearestNeighbor, PipelineError>(error),
            None => built is Ok && built.unwrap().label_index == target_value_idx && Ok::<
                (usize, Numeric),
                PipelineError,
            >((built.unwrap().num_neighbors, built.unwrap().epsilon)) == chosen_settings(
                settings_of(self.hyperparameters),
                self.num_neighbors,
                self.epsilon,
            ) && built.unwrap().is_usable() && built.unwrap().examples() == edited(
                training,
                target_value_idx as int,
                built.unwrap().num_neighbors as int,
                self.epsilon,
            ),
        }
    }

    /// Builds a model whose references are what the editing leaves of the
    /// training samples.
    pub fn build(&mut self, training_values: &[Vec<Numeric>], target_value_idx: usize) -> (built: Result<
        KNearestNeighbor,
        PipelineError,
    >)
        ensures
            *final(self) == *old(self),
            old(self).builds(examples_view(training_values@), target_value_idx, built),
    {
        match check_training(training_values, target_value_idx) {
            Some(error) => {
                return Err(error);
            },
            None => {},
        }
        let (num_neighbors, epsilon) = match choose_settings(
            &self.hyperparameters,
            self.num_neighbors,
            self.epsilon,
        ) {
            Ok(settled) => settled,
            Err(error) => {
                return Err(error);
            },
        };
        let ghost training = examples_view(training_values@);
        let label_examples = copy_samples(training_values, training_values.len());
        let mut model = KNearestNeighbor {
            label_examples,
            label_index: target_value_idx,
            num_neighbors,
            epsilon,
        };
        let mut waiting: usize = training_values.len();
        proof {
            assert(training.take(waiting as int) == training);
            assert(model.examples() =~= training.take(waiting as int) + edited_kept(
                training,
                target_value_idx as int,
                num_neighbors as int,
                self.epsilon,
                waiting as int,
            ));
        }
        while waiting > 0
            invariant
                waiting <= training_values@.len(),
                training_values@.len() >= 1,
                training == examples_view(training_values@),
                all_labelled(training, target_value_idx as int),
                model.label_index == target_value_idx,
                model.num_neighbors == num_neighbors,
                num_neighbors >= 1,
                model.epsilon == epsilon,
                model.examples() == training.take(waiting as int) + edited_kept(
                    training,
                    target_value_idx as int,
                    num_neighbors as int,
                    self.epsilon,
                    waiting as int,
                ),
            decreases waiting,
        {
            let idx = waiting - 1;
            let sample = &training_values[idx];
            let ghost kept = edited_kept(
                training,
                target_value_idx as int,
                num_neighbors as int,
                self.epsilon,
                waiting as int,
            );
            let ghost before = model.examples();
            proof {
                assert(training[idx as int] == sample@);
                assert(model.examples().len() == model.label_examples@.len());
                lemma_edited_subset(
                    training,
                    target_value_idx as int,
                    num_neighbors as int,
                    self.epsilon,
                    waiting as int,
                );
            }
            model.label_examples.remove(idx);
            proof {
                assert(model.examples() =~= before.remove(idx as int));
                assert(before.remove(idx as int) =~= training.take(idx as int) + kept);
                assert forall|i: int| 0 <= i < model.examples().len() implies 0 <= target_value_idx < (
                #[trigger] model.examples()[i]).len() by {
                    if i < idx {
                        assert(model.examples()[i] == training[i]);
                    } else {
                        assert(model.examples()[i] == kept[i - idx]);
                        assert(training.contains(kept[i - idx]));
                    }
                }
            }
            if model.misjudges(sample.as_slice(), self.epsilon) {
                let ghost others = model.examples();
                model.label_examples.push(copy_sample(sample));
                proof {
                    assert(model.examples() =~= others.push(sample@));
                    assert(others.push(sample@) =~= training.take(idx as int) + kept.push(sample@));
                }
            }
            waiting = idx;
        }
        proof {
            assert(training.take(0) + edited(
                training,
                target_value_idx as int,
                num_neighbors as int,
                self.epsilon,
            ) =~= edited(training, target_value_idx as int, num_neighbors as int, self.epsilon));
            lemma_edited_subset(training, target_value_idx as int, num_neighbors as int, self.epsilon, 0);
            lemma_edited_nonempty(training, target_value_idx as int, num_neighbors as int, self.epsilon);
            assert forall|i: int| 0 <= i < model.label_examples@.len() implies model.label_index < (
            #[trigger] model.label_examples@[i])@.len() by {
                assert(model.examples()[i] == model.label_examples@[i]@);
                assert(training.contains(model.examples()[i]));
            }
        }
        Ok(model)
    }
}

/// The editing never leaves a training set without a reference: the sample
/// whose turn comes last is kept where no other is left.
pub proof fn lemma_edited_nonempty(training: Seq<Seq<Numeric>>, label_index: int, k: int, epsilon: Numeric)
    requires
        training.len() >= 1,
    ensures
        edited(training, label_index, k, epsilon).len() >= 1,
{
    let later = edited_kept(training, label_index, k, epsilon, 1);
    assert(training.take(0) + later == later);
}

} // verus!

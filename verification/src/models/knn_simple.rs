//! The trainer that keeps every training sample as a reference.

use crate::dictionary::Dictionary;
use crate::models::knn::{
    check_training, configured, copy_sample, examples_view, read_settings, training_fault,
    KNearestNeighbor,
};
use crate::types::{Numeric, PipelineError, NUMERIC_DIGIT_PRECISION};
use vstd::prelude::*;

verus! {

/// The trainer of k-nearest-neighbour models that keep every sample.
pub struct SimpleKNearestNeighborTrainer {
    /// The settings that the next model is built with, if any were given.
    pub hyperparameters: Option<Dictionary<String>>,
    /// The number of neighbours of a model built without settings.
    pub num_neighbors: usize,
    /// The tolerance that the built model carries.
    pub epsilon: Numeric,
    /// Whether a diagram of the references is wanted after a build.
    pub show_voronoi: bool,
}

/// The number of neighbours and the tolerance that a trainer gives its
/// model: what its settings say, or else its own; no neighbour at all is
/// `InvalidConfig`.
pub open spec fn chosen_settings(
    hyperparameters: Option<Seq<(Seq<char>, String)>>,
    neighbors: usize,
    epsilon: Numeric,
) -> Result<(usize, Numeric), PipelineError> {
    let read = match hyperparameters {
        Some(settings) => configured(settings, settings.len() as int, neighbors, epsilon),
        None => Ok((neighbors, epsilon)),
    };
    match read {
        Ok(settled) => if settled.0 == 0 {
            Err(PipelineError::InvalidConfig)
        } else {
            Ok(settled)
        },
        Err(error) => Err(error),
    }
}

/// The settings as plain values, where there are any.
pub open spec fn settings_of(hyperparameters: Option<Dictionary<String>>) -> Option<Seq<(Seq<char>, String)>> {
    match hyperparameters {
        Some(settings) => Some(settings@),
        None => None,
    }
}

/// Settles the number of neighbours and the tolerance of the next model.
pub fn choose_settings(hyperparameters: &Option<Dictionary<String>>, neighbors: usize, epsilon: Numeric) -> (chosen: Result<
    (usize, Numeric),
    PipelineError,
>)
    ensures
        chosen == chosen_settings(settings_of(*hyperparameters), neighbors, epsilon),
{
    let read = match hyperparameters {
        Some(settings) => read_settings(settings, neighbors, epsilon),
        None => Ok((neighbors, epsilon)),
    };
    match read {
        Ok(settled) => if settled.0 == 0 {
            Err(PipelineError::InvalidConfig)
        } else {
            Ok(settled)
        },
        Err(error) => Err(error),
    }
}

/// What stands in the way of a build, if anything: first a fault of the
/// training samples, then one of the settings.
pub open spec fn build_fault(
    training: Seq<Seq<Numeric>>,
    label_index: int,
    hyperparameters: Option<Seq<(Seq<char>, String)>>,
    neighbors: usize,
    epsilon: Numeric,
) -> Option<PipelineError> {
    match training_fault(training, label_index) {
        Some(error) => Some(error),
        None => match chosen_settings(hyperparameters, neighbors, epsilon) {
            Err(error) => Some(error),
            Ok(_) => None,
        },
    }
}

/// Copies of the first `upto` samples.
pub fn copy_samples(samples: &[Vec<Numeric>], upto: usize) -> (copies: Vec<Vec<Numeric>>)
    requires
        upto <= samples@.len(),
    ensures
        examples_view(copies@) == examples_view(samples@).take(upto as int),
{
    let mut copies: Vec<Vec<Numeric>> = Vec::new();
    let mut at: usize = 0;
    while at < upto
        invariant
            at <= upto <= samples@.len(),
            copies@.len() == at,
            forall|i: int| 0 <= i < at ==> (#[trigger] copies@[i])@ == samples@[i]@,
        decreases upto - at,
    {
        copies.push(copy_sample(&samples[at]));
        at = at + 1;
    }
    assert(examples_view(copies@) =~= examples_view(samples@).take(upto as int));
    copies
}

impl SimpleKNearestNeighborTrainer {
    pub fn new() -> (trainer: Self)
        ensures
            trainer.hyperparameters is None,
            trainer.num_neighbors == 1,
            trainer.epsilon == NUMERIC_DIGIT_PRECISION,
            !trainer.show_voronoi,
    {
        Self { hyperparameters: None, num_neighbors: 1, epsilon: NUMERIC_DIGIT_PRECISION, show_voronoi: false }
    }

    /// Keeps a copy of `features` as the settings of the models to come.
    pub fn with_hyperparameters(&mut self, features: &Dictionary<String>) -> (done: Result<(), PipelineError>)
        ensures
            done is Ok,
            final(self).hyperparameters is Some,
            final(self).hyperparameters.unwrap()@ == features@,
            final(self).num_neighbors == old(self).num_neighbors,
            final(self).epsilon == old(self).epsilon,
            final(self).show_voronoi == old(self).show_voronoi,
    {
        self.hyperparameters = Some(features.duplicate());
        Ok(())
    }

    /// Whether `built` is what this trainer makes of `training`: the fault
    /// that stands in the way, or a model whose references are the training
    /// samples, all of them and in their order.
    pub open spec fn builds(
        &self,
        training: Seq<Seq<Numeric>>,
        target_value_idx: usize,
        built: Result<KNearestNeighbor, PipelineError>,
    ) -> bool {
        match build_fault(
            training,
            target_value_idx as int,
            settings_of(self.hyperparameters),
            self.num_neighbors,
            self.epsilon,
        ) {
            Some(error) => built == Err::<KNearestNeighbor, PipelineError>(error),
            None => built is Ok && built.unwrap().examples() == training && built.unwrap().label_index
                == target_value_idx && Ok::<(usize, Numeric), PipelineError>(
                (built.unwrap().num_neighbors, built.unwrap().epsilon),
            ) == chosen_settings(settings_of(self.hyperparameters), self.num_neighbors, self.epsilon)
                && built.unwrap().is_usable(),
        }
    }

    /// Builds a model whose references are the training samples, all of
    /// them and in their order.
    pub fn build(&mut self, training_values: &[Vec<Numeric>], target_value_idx: usize) -> (built: Result<
        KNearestNeighbor,
        PipelineError,
    >)
        ensures
            *final(self) == *old(self),
            old(self).builds(examples_view(training_values@), target_value_idx, built),
    {
        match check_training(training_values, target_value_idx) {
            Some(error) => {
                return Err(error);
            },
            None => {},
        }
        let (num_neighbors, epsilon) = match choose_settings(
            &self.hyperparameters,
            self.num_neighbors,
            self.epsilon,
        ) {
            Ok(settled) => settled,
            Err(error) => {
                return Err(error);
            },
        };
        let label_examples = copy_samples(training_values, training_values.len());
        let model = KNearestNeighbor {
            label_examples,
            label_index: target_value_idx,
            num_neighbors,
            epsilon,
        };
        proof {
            assert(examples_view(training_values@).take(training_values@.len() as int) == examples_view(
                training_values@,
            ));
            assert forall|i: int| 0 <= i < model.label_examples@.len() implies model.label_index < (
            #[trigger] model.label_examples@[i])@.len() by {
                assert(model.examples()[i] == model.label_examples@[i]@);
            }
        }
        Ok(model)
    }
}

} // verus!

//! The models and their trainers.

pub mod knn;
pub mod knn_condensed;
pub mod knn_edited;
pub mod knn_simple;
pub mod null;

use crate::dictionary::Dictionary;
use crate::models::knn::{label_of, KNearestNeighbor};
use crate::models::knn_condensed::CondensedKNearestNeighborTrainer;
use crate::models::knn_edited::EditedKNearestNeighborTrainer;
use crate::models::knn_simple::{build_fault, settings_of, SimpleKNearestNeighborTrainer};
use crate::models::null::{NullClassificationModelTrainer, NullModel, NullRegressionModelTrainer};
use crate::types::{Numeric, PipelineError};
use vstd::prelude::*;

verus! {

/// How often `key` stands among the first `upto` of `votes`.
pub open spec fn occurrences(votes: Seq<Numeric>, key: Numeric, upto: int) -> int
    decreases upto,
{
    if upto <= 0 {
        0
    } else if votes[upto - 1] == key {
        occurrences(votes, key, upto - 1) + 1
    } else {
        occurrences(votes, key, upto - 1)
    }
}

/// The place of the vote that wins among the first `upto`: a later vote takes
/// the lead only if its key stands in `votes` more often than the leader's.
pub open spec fn winner(votes: Seq<Numeric>, upto: int) -> int
    decreases upto,
{
    if upto <= 1 {
        0
    } else if occurrences(votes, votes[upto - 1], votes.len() as int) > occurrences(
        votes,
        votes[winner(votes, upto - 1)],
        votes.len() as int,
    ) {
        upto - 1
    } else {
        winner(votes, upto - 1)
    }
}

/// The key that stands in `votes` most often; of several such keys the one
/// that is met first.
pub open spec fn mode_first(votes: Seq<Numeric>) -> Numeric {
    votes[winner(votes, votes.len() as int)]
}

/// The winner is one of the votes, no key stands more often than the
/// winner's, and every key met before the winner stands less often.
pub proof fn lemma_winner(votes: Seq<Numeric>, upto: int)
    requires
        1 <= upto <= votes.len(),
    ensures
        0 <= winner(votes, upto) < upto,
        forall|j: int|
            0 <= j < upto ==> occurrences(votes, #[trigger] votes[j], votes.len() as int) <= occurrences(
                votes,
                votes[winner(votes, upto)],
                votes.len() as int,
            ),
        forall|j: int|
            0 <= j < winner(votes, upto) ==> occurrences(votes, #[trigger] votes[j], votes.len() as int)
                < occurrences(votes, votes[winner(votes, upto)], votes.len() as int),
    decreases upto,
{
    if upto > 1 {
        lemma_winner(votes, upto - 1);
    }
}

/// Counts how often `key` stands in `votes`.
pub fn count_votes(votes: &Vec<Numeric>, key: Numeric) -> (count: usize)
    ensures
        count == occurrences(votes@, key, votes@.len() as int),
{
    let mut count: usize = 0;
    let mut at: usize = 0;
    while at < votes.len()
        invariant
            at <= votes@.len(),
            count == occurrences(votes@, key, at as int),
            count <= at,
        decreases votes@.len() - at,
    {
        if votes[at] == key {
            count = count + 1;
        }
        at = at + 1;
    }
    count
}

/// The key that stands in `votes` most often; of several such keys the one
/// that is met first.
pub fn mode(votes: &Vec<Numeric>) -> (key: Numeric)
    requires
        votes@.len() > 0,
    ensures
        key == mode_first(votes@),
{
    let mut leader: usize = 0;
    let mut lead = count_votes(votes, votes[0]);
    let mut at: usize = 1;
    while at < votes.len()
        invariant
            1 <= at <= votes@.len(),
            leader == winner(votes@, at as int),
            leader < at,
            lead == occurrences(votes@, votes@[leader as int], votes@.len() as int),
        decreases votes@.len() - at,
    {
        let count = count_votes(votes, votes[at]);
        if count > lead {
            leader = at;
            lead = count;
        }
        at = at + 1;
    }
    votes[leader]
}

/// A built model of one of the kinds that the pipeline knows.
pub enum Model {
    KNearestNeighbor(KNearestNeighbor),
    Null(NullModel),
}

/// A trainer of one of the kinds that the pipeline knows.
pub enum ModelBuilder {
    NullRegression(NullRegressionModelTrainer),
    NullClassifier(NullClassificationModelTrainer),
    KnnSimple(SimpleKNearestNeighborTrainer),
    KnnCondensed(CondensedKNearestNeighborTrainer),
    KnnEdited(EditedKNearestNeighborTrainer),
}

impl Model {
    /// Whether the model can answer.
    pub open spec fn is_usable(&self) -> bool {
        match self {
            Model::KNearestNeighbor(model) => model.is_usable(),
            Model::Null(_) => true,
        }
    }

    /// The class that the model gives to `sample`.
    pub open spec fn label_for(&self, sample: Seq<Numeric>) -> Numeric {
        match self {
            Model::KNearestNeighbor(model) => label_of(
                model.examples(),
                sample,
                model.label_index as int,
                model.num_neighbors as int,
            ),
            Model::Null(model) => model.value(),
        }
    }

    /// The class of `sample`.
    pub fn label(&self, sample: &[Numeric]) -> (class: Numeric)
        requires
            self.is_usable(),
        ensures
            class == self.label_for(sample@),
    {
        match self {
            Model::KNearestNeighbor(model) => model.label(sample),
            Model::Null(model) => model.label(sample),
        }
    }

    /// The name of the kind of the model.
    pub fn type_id(&self) -> (name: &'static str)
        ensures
            name@ == match self {
                Model::KNearestNeighbor(_) => "KNearestNeighbor"@,
                Model::Null(_) => "NullModel"@,
            },
    {
        match self {
            Model::KNearestNeighbor(model) => model.type_id(),
            Model::Null(model) => model.type_id(),
        }
    }

    /// The settings of the model as pairs of name and written value: of a
    /// nearest-neighbour model the number of neighbours and the tolerance,
    /// of the baseline its constant.
    pub open spec fn settings(&self) -> Seq<(Seq<char>, Seq<char>)> {
        match self {
            Model::KNearestNeighbor(model) => seq![
                ("num_neighbors"@, crate::text::decimal_digits(model.num_neighbors as nat)),
                ("epsilon"@, crate::text::numeric_text(model.epsilon)),
            ],
            Model::Null(model) => seq![("return_value"@, crate::text::numeric_text(model.value()))],
        }
    }

    /// The settings of the model as text.
    pub fn get_hyperparameters(&self) -> (settings: Dictionary<String>)
        ensures
            crate::models::knn::settings_text(settings@) == self.settings(),
    {
        match self {
            Model::KNearestNeighbor(model) => model.get_hyperparameters(),
            Model::Null(model) => model.get_hyperparameters(),
        }
    }
}

impl ModelBuilder {
    /// The settings that the trainer keeps for the models to come, where it
    /// keeps any.
    pub open spec fn settings(&self) -> Option<Seq<(Seq<char>, String)>> {
        match self {
            ModelBuilder::NullRegression(_) => None,
            ModelBuilder::NullClassifier(_) => None,
            ModelBuilder::KnnSimple(trainer) => settings_of(trainer.hyperparameters),
            ModelBuilder::KnnCondensed(trainer) => settings_of(trainer.hyperparameters),
            ModelBuilder::KnnEdited(trainer) => settings_of(trainer.hyperparameters),
        }
    }

    /// What the trainer is without its settings: its place among the
    /// kinds, and for a nearest-neighbour trainer the number of neighbours
    /// and the tolerance it starts from and whether it wants a diagram.
    pub open spec fn defaults(&self) -> (int, usize, Numeric, bool) {
        match self {
            ModelBuilder::NullRegression(_) => (0, 0, 0, false),
            ModelBuilder::NullClassifier(_) => (1, 0, 0, false),
            ModelBuilder::KnnSimple(trainer) => (2, trainer.num_neighbors, trainer.epsilon, trainer.show_voronoi),
            ModelBuilder::KnnCondensed(trainer) => (
                3,
                trainer.num_neighbors,
                trainer.epsilon,
                trainer.show_voronoi,
            ),
            ModelBuilder::KnnEdited(trainer) => (4, trainer.num_neighbors, trainer.epsilon, trainer.show_voronoi),
        }
    }

    /// What stands in the way of a build on `training`, if anything.
    pub open spec fn fault(&self, training: Seq<Seq<Numeric>>, target_value_idx: usize) -> Option<PipelineError> {
        let (_, neighbors, epsilon, _) = self.defaults();
        if self.is_baseline() {
            crate::models::knn::training_fault(training, target_value_idx as int)
        } else {
            build_fault(training, target_value_idx as int, self.settings(), neighbors, epsilon)
        }
    }

    /// Whether the trainer is one of the baseline.
    pub open spec fn is_baseline(&self) -> bool {
        self is NullRegression || self is NullClassifier
    }

    /// Hands `features` to the trainer as the settings of the models to
    /// come; a trainer of the baseline keeps none.
    pub fn with_hyperparameters(&mut self, features: &Dictionary<String>) -> (done: Result<(), PipelineError>)
        ensures
            done is Ok,
            old(self).is_baseline() ==> *final(self) == *old(self),
            !old(self).is_baseline() ==> final(self).settings() == Some(features@),
            final(self).defaults() == old(self).defaults(),
    {
        match self {
            ModelBuilder::NullRegression(trainer) => trainer.with_hyperparameters(features),
            ModelBuilder::NullClassifier(trainer) => trainer.with_hyperparameters(features),
            ModelBuilder::KnnSimple(trainer) => trainer.with_hyperparameters(features),
            ModelBuilder::KnnCondensed(trainer) => trainer.with_hyperparameters(features),
            ModelBuilder::KnnEdited(trainer) => trainer.with_hyperparameters(features),
        }
    }

    /// Whether `built` is what the trainer makes of `training`.
    pub open spec fn builds(&self, training: Seq<Seq<Numeric>>, target_value_idx: usize, built: Result<
        Model,
        PipelineError,
    >) -> bool {
        match (self, built) {
            (ModelBuilder::NullRegression(_), Ok(Model::Null(model))) => NullRegressionModelTrainer::builds(
                training,
                target_value_idx,
                Ok(model),
            ),
            (ModelBuilder::NullRegression(_), Err(error)) => NullRegressionModelTrainer::builds(
                training,
                target_value_idx,
                Err(error),
            ),
            (ModelBuilder::NullClassifier(_), Ok(Model::Null(model))) => NullClassificationModelTrainer::builds(
                training,
                target_value_idx,
                Ok(model),
            ),
            (ModelBuilder::NullClassifier(_), Err(error)) => NullClassificationModelTrainer::builds(
                training,
                target_value_idx,
                Err(error),
            ),
            (ModelBuilder::KnnSimple(trainer), Ok(Model::KNearestNeighbor(model))) => trainer.builds(
                training,
                target_value_idx,
                Ok(model),
            ),
            (ModelBuilder::KnnSimple(trainer), Err(error)) => trainer.builds(
                training,
                target_value_idx,
                Err(error),
            ),
            (ModelBuilder::KnnCondensed(trainer), Ok(Model::KNearestNeighbor(model))) => trainer.builds(
                training,
                target_value_idx,
                Ok(model),
            ),
            (ModelBuilder::KnnCondensed(trainer), Err(error)) => trainer.builds(
                training,
                target_value_idx,
                Err(error),
            ),
            (ModelBuilder::KnnEdited(trainer), Ok(Model::KNearestNeighbor(model))) => trainer.builds(
                training,
                target_value_idx,
                Ok(model),
            ),
            (ModelBuilder::KnnEdited(trainer), Err(error)) => trainer.builds(training, target_value_idx, Err(error)),
            _ => false,
        }
    }

    /// Builds a model from the training samples in the way of the trainer.
    pub fn build(&mut self, training_values: &[Vec<Numeric>], target_value_idx: usize) -> (built: Result<
        Model,
        PipelineError,
    >)
        ensures
            *final(self) == *old(self),
            old(self).builds(crate::models::knn::examples_view(training_values@), target_value_idx, built),
            built is Ok ==> built.unwrap().is_usable(),
            match old(self).fault(crate::models::knn::examples_view(training_values@), target_value_idx) {
                Some(error) => built matches Err(raised) && raised == error,
                None => built is Ok,
            },
            built is Ok ==> (built.unwrap() is Null <==> old(self).is_baseline()),
    {
        match self {
            ModelBuilder::NullRegression(trainer) => match trainer.build(training_values, target_value_idx) {
                Ok(model) => Ok(Model::Null(model)),
                Err(error) => Err(error),
            },
            ModelBuilder::NullClassifier(trainer) => match trainer.build(training_values, target_value_idx) {
                Ok(model) => Ok(Model::Null(model)),
                Err(error) => Err(error),
            },
            ModelBuilder::KnnSimple(trainer) => match trainer.build(training_values, target_value_idx) {
                Ok(model) => Ok(Model::KNearestNeighbor(model)),
                Err(error) => Err(error),
            },
            ModelBuilder::KnnCondensed(trainer) => match trainer.build(training_values, target_value_idx) {
                Ok(model) => Ok(Model::KNearestNeighbor(model)),
                Err(error) => Err(error),
            },
            ModelBuilder::KnnEdited(trainer) => match trainer.build(training_values, target_value_idx) {
                Ok(model) => Ok(Model::KNearestNeighbor(model)),
                Err(error) => Err(error),
            },
        }
    }
}

/// The defaults of the trainer that `name` stands for, if it stands for
/// one: its place among the kinds, and for a nearest-neighbour trainer one
/// neighbour, the least tolerance, and a diagram for the editing one only.
pub open spec fn builder_defaults(name: Seq<char>) -> Option<(int, usize, Numeric, bool)> {
    if name == "null-regression"@ {
        Some((0, 0, 0, false))
    } else if name == "null-classifier"@ {
        Some((1, 0, 0, false))
    } else if name == "knn-simple"@ {
        Some((2, 1, crate::types::NUMERIC_DIGIT_PRECISION, false))
    } else if name == "knn-condensed"@ {
        Some((3, 1, crate::types::NUMERIC_DIGIT_PRECISION, false))
    } else if name == "knn-edited"@ {
        Some((4, 1, crate::types::NUMERIC_DIGIT_PRECISION, true))
    } else {
        None
    }
}

/// The trainer that goes by `model_name`: `null-regression`,
/// `null-classifier`, `knn-simple`, `knn-condensed` or `knn-edited`, each as
/// its `new` makes it.
pub fn get_model_builder(model_name: &str) -> (found: Result<ModelBuilder, PipelineError>)
    ensures
        if model_name@ == "null-regression"@ {
            found is Ok && found.unwrap() is NullRegression
        } else if model_name@ == "null-classifier"@ {
            found is Ok && found.unwrap() is NullClassifier
        } else if model_name@ == "knn-simple"@ {
            found is Ok && found.unwrap() is KnnSimple
        } else if model_name@ == "knn-condensed"@ {
            found is Ok && found.unwrap() is KnnCondensed
        } else if model_name@ == "knn-edited"@ {
            found is Ok && found.unwrap() is KnnEdited
        } else {
            found matches Err(error) && error == PipelineError::NotFound
        },
        found is Ok <==> builder_defaults(model_name@) is Some,
        found is Ok ==> Some(found.unwrap().defaults()) == builder_defaults(model_name@),
        found is Ok ==> found.unwrap().settings() is None,
        found is Ok && !found.unwrap().is_baseline() ==> found.unwrap().defaults().1 == 1 && found.unwrap().defaults().2
            == crate::types::NUMERIC_DIGIT_PRECISION && (found.unwrap().defaults().3 <==> found.unwrap() is KnnEdited),
{
    let wanted = model_name.to_owned();
    if wanted == "null-regression".to_owned() {
        Ok(ModelBuilder::NullRegression(NullRegressionModelTrainer::new()))
    } else if wanted == "null-classifier".to_owned() {
        Ok(ModelBuilder::NullClassifier(NullClassificationModelTrainer::new()))
    } else if wanted == "knn-simple".to_owned() {
        Ok(ModelBuilder::KnnSimple(SimpleKNearestNeighborTrainer::new()))
    } else if wanted == "knn-condensed".to_owned() {
        Ok(ModelBuilder::KnnCondensed(CondensedKNearestNeighborTrainer::new()))
    } else if wanted == "knn-edited".to_owned() {
        Ok(ModelBuilder::KnnEdited(EditedKNearestNeighborTrainer::new()))
    } else {
        Err(PipelineError::NotFound)
    }
}

} // verus!

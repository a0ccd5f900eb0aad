//! The baseline model, which answers every sample with one constant, and
//! its two trainers: the mean of the training classes for regression, their
//! mode for classification.

use crate::dictionary::Dictionary;
use crate::models::knn::{check_training, examples_view, settings_text, training_fault};
use crate::text::{numeric_text, numeric_to_string, numeric_value, parse_numeric};
use crate::models::{mode, mode_first};
use crate::types::{Numeric, PipelineError};
use vstd::prelude::*;

verus! {

/// The baseline model: one constant for every sample.
pub struct NullModel {
    return_value: Numeric,
}

/// The trainer of the baseline for regression.
pub struct NullRegressionModelTrainer;

/// The trainer of the baseline for classification.
pub struct NullClassificationModelTrainer;

/// The classes of the samples, in their order.
pub open spec fn classes_of(training: Seq<Seq<Numeric>>, label_index: int) -> Seq<Numeric> {
    Seq::new(training.len(), |i: int| training[i][label_index])
}

/// The sum of the first `upto` values.
pub open spec fn total(values: Seq<Numeric>, upto: int) -> int
    decreases upto,
{
    if upto <= 0 {
        0
    } else {
        total(values, upto - 1) + values[upto - 1]
    }
}

/// The quotient of `sum` by `count`, rounded towards zero.
pub open spec fn toward_zero(sum: int, count: int) -> int {
    if sum >= 0 {
        sum / count
    } else {
        -((-sum) / count)
    }
}

/// The arithmetic mean of `values`, rounded towards zero to a whole number
/// of units.
pub open spec fn mean_of(values: Seq<Numeric>) -> int {
    toward_zero(total(values, values.len() as int), values.len() as int)
}

/// A sum of numbers lies within the bounds of as many numbers.
pub proof fn lemma_total_bounds(values: Seq<Numeric>, upto: int)
    requires
        0 <= upto <= values.len(),
    ensures
        upto * i64::MIN <= total(values, upto) <= upto * i64::MAX,
    decreases upto,
{
    if upto > 0 {
        lemma_total_bounds(values, upto - 1);
        assert((upto - 1) * i64::MIN + i64::MIN == upto * i64::MIN) by (nonlinear_arith);
        assert((upto - 1) * i64::MAX + i64::MAX == upto * i64::MAX) by (nonlinear_arith);
    }
}

/// The classes of the samples, in their order.
pub fn collect_classes(training_values: &[Vec<Numeric>], target_value_idx: usize) -> (classes: Vec<Numeric>)
    requires
        training_fault(examples_view(training_values@), target_value_idx as int) is None,
    ensures
        classes@ == classes_of(examples_view(training_values@), target_value_idx as int),
{
    let mut classes: Vec<Numeric> = Vec::new();
    let mut at: usize = 0;
    while at < training_values.len()
        invariant
            at <= training_values@.len(),
            training_fault(examples_view(training_values@), target_value_idx as int) is None,
            classes@ == classes_of(examples_view(training_values@), target_value_idx as int).take(at as int),
        decreases training_values@.len() - at,
    {
        proof {
            assert(examples_view(training_values@)[at as int] == training_values@[at as int]@);
        }
        classes.push(training_values[at][target_value_idx]);
        at = at + 1;
        assert(classes@ =~= classes_of(examples_view(training_values@), target_value_idx as int).take(at as int));
    }
    assert(classes@ =~= classes_of(examples_view(training_values@), target_value_idx as int));
    classes
}

/// The arithmetic mean of `values`, rounded towards zero.
pub fn mean(values: &Vec<Numeric>) -> (mean: Numeric)
    requires
        values@.len() > 0,
    ensures
        mean == mean_of(values@),
{
    let count = values.len();
    let mut sum: i128 = 0;
    let mut at: usize = 0;
    while at < count
        invariant
            at <= count,
            count == values@.len(),
            sum == total(values@, at as int),
        decreases count - at,
    {
        proof {
            lemma_total_bounds(values@, at as int);
            assert(at * i64::MIN >= usize::MAX * i64::MIN && at * i64::MAX <= usize::MAX * i64::MAX)
                by (nonlinear_arith)
                requires
                    0 <= at <= usize::MAX,
            ;
        }
        sum = sum + values[at] as i128;
        at = at + 1;
    }
    proof {
        lemma_total_bounds(values@, count as int);
    }
    if sum >= 0 {
        let quotient: u128 = (sum as u128) / (count as u128);
        proof {
            let s = sum as int;
            let c = count as int;
            assert(s / c <= i64::MAX) by (nonlinear_arith)
                requires
                    0 <= s <= c * i64::MAX,
                    c > 0,
            ;
        }
        quotient as i64
    } else {
        let quotient: u128 = ((-sum) as u128) / (count as u128);
        proof {
            let s = -sum as int;
            let c = count as int;
            assert(s / c <= -i64::MIN) by (nonlinear_arith)
                requires
                    0 <= s <= c * (-i64::MIN),
                    c > 0,
            ;
        }
        (-(quotient as i128)) as i64
    }
}

impl NullModel {
    /// The constant that the model answers with.
    pub closed spec fn value(&self) -> Numeric {
        self.return_value
    }

    /// What the model answers for `sample`, be it asked to predict or to label.
    pub open spec fn answer_for(&self, sample: Seq<Numeric>) -> Numeric {
        self.value()
    }

    /// A model that answers with `return_value`.
    pub fn new(return_value: Numeric) -> (model: Self)
        ensures
            model.value() == return_value,
    {
        Self { return_value }
    }

    /// The constant, whatever the sample.
    pub fn predict(&self, _sample: &[Numeric]) -> (answer: Numeric)
        ensures
            answer == self.answer_for(_sample@),
            answer == self.value(),
    {
        self.return_value
    }

    /// The constant, whatever the sample.
    pub fn label(&self, _sample: &[Numeric]) -> (answer: Numeric)
        ensures
            answer == self.answer_for(_sample@),
            answer == self.value(),
    {
        self.return_value
    }

    /// The name of this kind of model.
    pub fn type_id(&self) -> (name: &'static str)
        ensures
            name@ == "NullModel"@,
    {
        "NullModel"
    }

    /// The settings of the model as text: its constant under `return_value`.
    pub fn get_hyperparameters(&self) -> (settings: Dictionary<String>)
        ensures
            settings_text(settings@) == seq![("return_value"@, numeric_text(self.value()))],
    {
        let mut settings: Dictionary<String> = Dictionary::new();
        settings.insert("return_value".to_owned(), numeric_to_string(self.return_value));
        assert(settings_text(settings@) =~= seq![("return_value"@, numeric_text(self.value()))]);
        settings
    }

    /// Takes the constant from what `hyperparameters` hold under
    /// `return_value`, if they hold anything there. Where that writes no
    /// number (`Numeric`), the model stays as it was.
    pub fn set_hyperparameters(&mut self, hyperparameters: &Dictionary<String>) -> (done: Result<(), PipelineError>)
        ensures
            match hyperparameters.lookup("return_value"@) {
                None => done is Ok && final(self).value() == old(self).value(),
                Some(text) => match numeric_value(text@) {
                    Some(number) => done is Ok && final(self).value() == number,
                    None => done == Err::<(), PipelineError>(PipelineError::Numeric) && final(self).value()
                        == old(self).value(),
                },
            },
    {
        match hyperparameters.get("return_value") {
            Some(text) => match parse_numeric(text.as_str()) {
                Some(number) => {
                    self.return_value = number;
                    Ok(())
                },
                None => Err(PipelineError::Numeric),
            },
            None => Ok(()),
        }
    }
}

/// The baseline answers two samples alike.
pub proof fn lemma_null_model_constant(model: NullModel, first: Seq<Numeric>, second: Seq<Numeric>)
    ensures
        model.answer_for(first) == model.answer_for(second),
{
}

impl NullRegressionModelTrainer {
    pub fn new() -> Self {
        Self {  }
    }

    /// The baseline has no settings: nothing is kept.
    pub fn with_hyperparameters(&mut self, _features: &Dictionary<String>) -> (done: Result<(), PipelineError>)
        ensures
            done is Ok,
    {
        Ok(())
    }

    /// Whether `built` is what this trainer makes of `training`: the fault
    /// of the training samples, or a model that answers with the mean of
    /// their classes.
    pub open spec fn builds(training: Seq<Seq<Numeric>>, target_value_idx: usize, built: Result<NullModel, PipelineError>) -> bool {
        match training_fault(training, target_value_idx as int) {
            Some(error) => built == Err::<NullModel, PipelineError>(error),
            None => built is Ok && built.unwrap().value() == mean_of(classes_of(training, target_value_idx as int)),
        }
    }

    /// Builds a model that answers with the mean of the training classes.
    pub fn build(&mut self, training_values: &[Vec<Numeric>], target_value_idx: usize) -> (built: Result<
        NullModel,
        PipelineError,
    >)
        ensures
            Self::builds(examples_view(training_values@), target_value_idx, built),
    {
        match check_training(training_values, target_value_idx) {
            Some(error) => {
                return Err(error);
            },
            None => {},
        }
        let classes = collect_classes(training_values, target_value_idx);
        Ok(NullModel { return_value: mean(&classes) })
    }
}

impl NullClassificationModelTrainer {
    pub fn new() -> Self {
        Self {  }
    }

    /// The baseline has no settings: nothing is kept.
    pub fn with_hyperparameters(&mut self, _features: &Dictionary<String>) -> (done: Result<(), PipelineError>)
        ensures
            done is Ok,
    {
        Ok(())
    }

    /// Whether `built` is what this trainer makes of `training`: the fault
    /// of the training samples, or a model that answers with the class that
    /// most of them have, of several such classes the one met first.
    pub open spec fn builds(training: Seq<Seq<Numeric>>, target_value_idx: usize, built: Result<NullModel, PipelineError>) -> bool {
        match training_fault(training, target_value_idx as int) {
            Some(error) => built == Err::<NullModel, PipelineError>(error),
            None => built is Ok && built.unwrap().value() == mode_first(
                classes_of(training, target_value_idx as int),
            ),
        }
    }

    /// Builds a model that answers with the most common training class.
    pub fn build(&mut self, training_values: &[Vec<Numeric>], target_value_idx: usize) -> (built: Result<
        NullModel,
        PipelineError,
    >)
        ensures
            Self::builds(examples_view(training_values@), target_value_idx, built),
    {
        match check_training(training_values, target_value_idx) {
            Some(error) => {
                return Err(error);
            },
            None => {},
        }
        let classes = collect_classes(training_values, target_value_idx);
        Ok(NullModel { return_value: mode(&classes) })
    }
}

} // verus!

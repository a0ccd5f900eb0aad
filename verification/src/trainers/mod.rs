//! The training director: which models are to be fitted on which rows, with
//! which settings, and what is made of their scores.
//!
//! A director hands out one trial at a time and takes the outcome of each
//! before it hands out the next; fitting a model and scoring it is the
//! caller's part.

pub mod kx2_folds;
pub mod simple;

use crate::data::data_frame::{row_at, DataFrame};
use crate::dictionary::Dictionary;
use crate::config::ConfigStruct;
use crate::evaluation::classification_score::lemma_error_rate_bounds;
use crate::evaluation::{evaluator_named, get_evaluator, Evaluator};
use crate::models::knn::{all_labelled, examples_view, settings_text};
use crate::models::null::{classes_of, mean_of, total};
use crate::models::{builder_defaults, get_model_builder, Model, ModelBuilder};
use crate::text::numeric_to_string;
use crate::trainers::kx2_folds::Kx2Folds;
use crate::trainers::simple::Simple;
use crate::tuning::grid_search_tuning::{
    candidates_of, combination_count, get_hyperparameter_combinations, is_grid_of,
};
use crate::types::{Numeric, PipelineError, NUMERIC_SCALE};
use crate::validation::{get_partitioner, partitioner_named};
use rand::rngs::StdRng;
use vstd::prelude::*;

verus! {

/// What a model is asked for.
#[derive(Clone, Copy, Debug, PartialEq, Eq, Structural)]
pub enum Task {
    Regression,
    Classification,
}

/// The ways of directing a training.
#[derive(Clone, Copy, Debug, PartialEq, Eq, Structural)]
pub enum Strategy {
    Simple,
    Kx2Folds,
}

/// The task that `name` stands for, if it stands for one: `regression`
/// or `classification`.
pub open spec fn task_named(name: Seq<char>) -> Option<Task> {
    if name == "regression"@ {
        Some(Task::Regression)
    } else if name == "classification"@ {
        Some(Task::Classification)
    } else {
        None
    }
}

/// The strategy that `name` stands for, if it stands for one: `simple` or
/// `kx2-folds`.
pub open spec fn strategy_named(name: Seq<char>) -> Option<Strategy> {
    if name == "simple"@ {
        Some(Strategy::Simple)
    } else if name == "kx2-folds"@ {
        Some(Strategy::Kx2Folds)
    } else {
        None
    }
}

/// The task that goes by `name`; a name that stands for none is `InvalidConfig`.
pub fn get_task(name: &str) -> (found: Result<Task, PipelineError>)
    ensures
        found == match task_named(name@) {
            Some(named) => Ok::<Task, PipelineError>(named),
            None => Err(PipelineError::InvalidConfig),
        },
{
    let wanted = name.to_owned();
    if wanted == "regression".to_owned() {
        Ok(Task::Regression)
    } else if wanted == "classification".to_owned() {
        Ok(Task::Classification)
    } else {
        Err(PipelineError::InvalidConfig)
    }
}

/// The strategy that goes by `name`; a name that stands for none is `NotFound`.
pub fn get_strategy(name: &str) -> (found: Result<Strategy, PipelineError>)
    ensures
        found == match strategy_named(name@) {
            Some(named) => Ok::<Strategy, PipelineError>(named),
            None => Err(PipelineError::NotFound),
        },
{
    let wanted = name.to_owned();
    if wanted == "simple".to_owned() {
        Ok(Strategy::Simple)
    } else if wanted == "kx2-folds".to_owned() {
        Ok(Strategy::Kx2Folds)
    } else {
        Err(PipelineError::NotFound)
    }
}

/// One piece of work for the caller: fit a model with `hyperparameters` on
/// the rows `train`, and score it on the rows `test`.
pub struct Trial {
    pub train: Vec<usize>,
    pub test: Vec<usize>,
    pub hyperparameters: Dictionary<String>,
}

/// A trial as plain values.
pub struct TrialView {
    pub train: Seq<usize>,
    pub test: Seq<usize>,
    pub hyperparameters: Seq<(Seq<char>, String)>,
}

impl View for Trial {
    type V = TrialView;

    open spec fn view(&self) -> TrialView {
        TrialView { train: self.train@, test: self.test@, hyperparameters: self.hyperparameters@ }
    }
}

/// What came of a trial: the score of the model, and the settings that the
/// model reports of itself.
pub struct Outcome {
    pub metric: Numeric,
    pub hyperparameters: Dictionary<String>,
}

/// What the director wants next: another trial, or nothing but to hand over
/// the result.
pub enum Step {
    Fit(Trial),
    Done(Numeric),
}

/// The size of a score, whatever its sign.
pub open spec fn size_of(metric: Numeric) -> int {
    if metric < 0 {
        -metric
    } else {
        metric as int
    }
}

/// The place of the best among the first `upto` scores: the one of the
/// smallest size, and of several such the first.
pub open spec fn best_candidate(metrics: Seq<Numeric>, upto: int) -> int
    decreases upto,
{
    if upto <= 1 {
        0
    } else if size_of(metrics[upto - 1]) < size_of(metrics[best_candidate(metrics, upto - 1)]) {
        upto - 1
    } else {
        best_candidate(metrics, upto - 1)
    }
}

/// The best candidate is one of the candidates, none has a score of smaller
/// size, and all before it have a score of larger size.
pub proof fn lemma_best_candidate(metrics: Seq<Numeric>, upto: int)
    requires
        1 <= upto <= metrics.len(),
    ensures
        0 <= best_candidate(metrics, upto) < upto,
        forall|j: int|
            0 <= j < upto ==> size_of(metrics[best_candidate(metrics, upto)]) <= size_of(#[trigger] metrics[j]),
        forall|j: int|
            0 <= j < best_candidate(metrics, upto) ==> size_of(metrics[best_candidate(metrics, upto)]) < size_of(
                #[trigger] metrics[j],
            ),
    decreases upto,
{
    if upto > 1 {
        lemma_best_candidate(metrics, upto - 1);
    }
}

/// The scores of the outcomes, in their order.
pub open spec fn metrics_of(outcomes: Seq<Outcome>) -> Seq<Numeric> {
    outcomes.map_values(|outcome: Outcome| outcome.metric)
}

/// The place of the outcome with the score of the smallest size, of
/// several such the first.
pub fn select_best(outcomes: &Vec<Outcome>) -> (best: usize)
    requires
        outcomes@.len() > 0,
    ensures
        best == best_candidate(metrics_of(outcomes@), outcomes@.len() as int),
        best < outcomes@.len(),
{
    let mut best: usize = 0;
    let mut at: usize = 1;
    while at < outcomes.len()
        invariant
            1 <= at <= outcomes@.len(),
            best < at,
            best == best_candidate(metrics_of(outcomes@), at as int),
        decreases outcomes@.len() - at,
    {
        let challenger = outcomes[at].metric as i128;
        let leader = outcomes[best].metric as i128;
        let challenger_size = if challenger < 0 {
            -challenger
        } else {
            challenger
        };
        let leader_size = if leader < 0 {
            -leader
        } else {
            leader
        };
        if challenger_size < leader_size {
            best = at;
        }
        at = at + 1;
    }
    best
}

/// The rows of `working` at the given places.
pub open spec fn mapped(positions: Seq<usize>, working: Seq<usize>) -> Seq<usize> {
    Seq::new(positions.len(), |i: int| working[positions[i] as int])
}

/// The rows of `working` at the given places.
pub fn map_rows(positions: &Vec<usize>, working: &Vec<usize>) -> (rows: Vec<usize>)
    requires
        forall|i: int| 0 <= i < positions@.len() ==> positions@[i] < working@.len(),
    ensures
        rows@ == mapped(positions@, working@),
{
    let mut rows: Vec<usize> = Vec::new();
    let mut at: usize = 0;
    while at < positions.len()
        invariant
            at <= positions@.len(),
            forall|i: int| 0 <= i < positions@.len() ==> positions@[i] < working@.len(),
            rows@ == mapped(positions@, working@).take(at as int),
        decreases positions@.len() - at,
    {
        rows.push(working[positions[at]]);
        at = at + 1;
        assert(rows@ =~= mapped(positions@, working@).take(at as int));
    }
    assert(rows@ =~= mapped(positions@, working@));
    rows
}

/// The labels of the given rows.
pub open spec fn labels_at(labels: Seq<Numeric>, rows: Seq<usize>) -> Seq<Numeric> {
    Seq::new(rows.len(), |i: int| labels[rows[i] as int])
}

/// The labels of the given rows.
pub fn select_labels(labels: &[Numeric], rows: &Vec<usize>) -> (selected: Vec<Numeric>)
    requires
        forall|i: int| 0 <= i < rows@.len() ==> rows@[i] < labels@.len(),
    ensures
        selected@ == labels_at(labels@, rows@),
{
    let mut selected: Vec<Numeric> = Vec::new();
    let mut at: usize = 0;
    while at < rows.len()
        invariant
            at <= rows@.len(),
            forall|i: int| 0 <= i < rows@.len() ==> rows@[i] < labels@.len(),
            selected@ == labels_at(labels@, rows@).take(at as int),
        decreases rows@.len() - at,
    {
        selected.push(labels[rows[at]]);
        at = at + 1;
        assert(selected@ =~= labels_at(labels@, rows@).take(at as int));
    }
    assert(selected@ =~= labels_at(labels@, rows@));
    selected
}

/// Among the labels of chosen rows a class has as many rows as it has
/// members among the chosen rows.
pub proof fn lemma_class_rows_of_chosen(labels: Seq<Numeric>, rows: Seq<usize>, key: Numeric, upto: int)
    requires
        0 <= upto <= rows.len(),
        forall|i: int| 0 <= i < rows.len() ==> #[trigger] rows[i] < labels.len(),
    ensures
        crate::validation::kfold_stratified::class_rows(labels_at(labels, rows), key, upto).len()
            == crate::validation::kfold_stratified::class_count(rows.take(upto), labels, key),
    decreases upto,
{
    if upto > 0 {
        lemma_class_rows_of_chosen(labels, rows, key, upto - 1);
        assert(rows.take(upto).drop_last() == rows.take(upto - 1));
        assert(rows.take(upto).last() == rows[upto - 1]);
        assert(labels_at(labels, rows)[upto - 1] == labels[rows[upto - 1] as int]);
    }
}

/// Why the given rows cannot be taken from the table, if they cannot: the
/// table has no column (`EmptyInput`), or its first column lacks one of the
/// rows (`OutOfBounds`).
pub open spec fn rows_fault(table: Seq<crate::data::column::Column<Numeric>>, rows: Seq<usize>) -> Option<
    PipelineError,
> {
    if rows.len() == 0 {
        None
    } else if table.len() == 0 {
        Some(PipelineError::EmptyInput)
    } else if exists|i: int| 0 <= i < rows.len() && #[trigger] rows[i] >= table[0]@.len() {
        Some(PipelineError::OutOfBounds)
    } else {
        None
    }
}

/// The given rows of the table as samples.
pub open spec fn samples_at(table: Seq<crate::data::column::Column<Numeric>>, rows: Seq<usize>) -> Seq<Seq<Numeric>> {
    Seq::new(rows.len(), |i: int| row_at(table, rows[i] as int))
}

/// Takes the given rows from the table as samples.
pub fn gather_rows(table: &DataFrame<Numeric>, rows: &Vec<usize>) -> (samples: Result<
    Vec<Vec<Numeric>>,
    PipelineError,
>)
    ensures
        match rows_fault(table@, rows@) {
            Some(error) => samples == Err::<Vec<Vec<Numeric>>, PipelineError>(error),
            None => samples is Ok && examples_view(samples.unwrap()@) == samples_at(table@, rows@),
        },
{
    let mut samples: Vec<Vec<Numeric>> = Vec::new();
    let mut at: usize = 0;
    while at < rows.len()
        invariant
            at <= rows@.len(),
            samples@.len() == at,
            at > 0 ==> table@.len() > 0,
            forall|i: int| 0 <= i < at ==> rows@[i] < table@[0]@.len(),
            forall|i: int| 0 <= i < at ==> (#[trigger] samples@[i])@ == row_at(table@, rows@[i] as int),
        decreases rows@.len() - at,
    {
        match table.get_row(rows[at]) {
            Ok(row) => {
                assert(row@ =~= row_at(table@, rows@[at as int] as int));
                samples.push(row);
            },
            Err(error) => {
                return Err(error);
            },
        }
        at = at + 1;
    }
    assert(examples_view(samples@) =~= samples_at(table@, rows@));
    Ok(samples)
}

/// The classes that the model gives to the samples, in their order.
pub open spec fn labels_for(model: Model, samples: Seq<Seq<Numeric>>) -> Seq<Numeric> {
    Seq::new(samples.len(), |i: int| model.label_for(samples[i]))
}

/// Asks the model for the class of every sample.
pub fn label_all(model: &Model, samples: &Vec<Vec<Numeric>>) -> (classes: Vec<Numeric>)
    requires
        model.is_usable(),
    ensures
        classes@ == labels_for(*model, examples_view(samples@)),
{
    let mut classes: Vec<Numeric> = Vec::new();
    let mut at: usize = 0;
    while at < samples.len()
        invariant
            at <= samples@.len(),
            model.is_usable(),
            classes@ == labels_for(*model, examples_view(samples@)).take(at as int),
        decreases samples@.len() - at,
    {
        classes.push(model.label(samples[at].as_slice()));
        at = at + 1;
        proof {
            assert(examples_view(samples@)[at - 1] == samples@[at - 1]@);
            assert(classes@ =~= labels_for(*model, examples_view(samples@)).take(at as int));
        }
    }
    assert(classes@ =~= labels_for(*model, examples_view(samples@)));
    classes
}

/// Whether the answers that `task` asks for can be had from the models of
/// `builder` in fixed-point numbers: classes always, and the prediction of
/// the baseline, which is its class. The kernel-weighted prediction of a
/// nearest-neighbour model is not among them.
pub open spec fn answers_here(task: Task, builder: ModelBuilder) -> bool {
    task == Task::Classification || builder.is_baseline()
}

/// Whether the answers that `task` asks for can be had here from a
/// trainer of the given defaults.
pub open spec fn answers_with(task: Task, defaults: (int, usize, Numeric, bool)) -> bool {
    task == Task::Classification || defaults.0 < 2
}

/// Why test samples cannot be scored against, if they cannot: there are
/// none (`EmptyInput`), or one has no place `label_index` (`OutOfBounds`).
pub open spec fn test_fault(tests: Seq<Seq<Numeric>>, label_index: int) -> Option<PipelineError> {
    if tests.len() == 0 {
        Some(PipelineError::EmptyInput)
    } else if !all_labelled(tests, label_index) {
        Some(PipelineError::OutOfBounds)
    } else {
        None
    }
}

/// What stands in the way of a trial, if anything, for a trainer that has
/// taken the settings of the trial: answers that cannot be had here
/// (`InvalidConfig`), then a fault of the training rows, of the test rows,
/// of the build and of the scoring, in this order.
pub open spec fn trial_fault(
    table: Seq<crate::data::column::Column<Numeric>>,
    label_index: usize,
    trial: TrialView,
    builder: ModelBuilder,
    task: Task,
) -> Option<PipelineError> {
    if !answers_here(task, builder) {
        Some(PipelineError::InvalidConfig)
    } else if rows_fault(table, trial.train) is Some {
        rows_fault(table, trial.train)
    } else if rows_fault(table, trial.test) is Some {
        rows_fault(table, trial.test)
    } else if builder.fault(samples_at(table, trial.train), label_index) is Some {
        builder.fault(samples_at(table, trial.train), label_index)
    } else {
        test_fault(samples_at(table, trial.test), label_index as int)
    }
}

/// Whether `outcome` is what comes of `trial` with a trainer that has taken
/// the settings of the trial: the score that `evaluator` gives to the
/// classes which the model built on the training rows gives to the test
/// rows, and the settings that this model reports.
pub open spec fn is_outcome_of(
    outcome: Outcome,
    table: Seq<crate::data::column::Column<Numeric>>,
    label_index: usize,
    trial: TrialView,
    builder: ModelBuilder,
    evaluator: Evaluator,
) -> bool {
    exists|model: Model| #[trigger]
        builder.builds(samples_at(table, trial.train), label_index, Ok(model)) && model.is_usable()
            && outcome.metric == evaluator.score_of(
            labels_for(model, samples_at(table, trial.test)),
            classes_of(samples_at(table, trial.test), label_index as int),
        ) && settings_text(outcome.hyperparameters@) == model.settings()
}

/// Whether `outcome` is what comes of `trial` with a trainer of the given
/// defaults that has taken the settings of the trial.
pub open spec fn is_scored(
    outcome: Outcome,
    table: Seq<crate::data::column::Column<Numeric>>,
    label_index: usize,
    trial: TrialView,
    defaults: (int, usize, Numeric, bool),
    evaluator: Evaluator,
) -> bool {
    exists|builder: ModelBuilder| #[trigger]
        is_outcome_of(outcome, table, label_index, trial, builder, evaluator) && builder.defaults() == defaults
            && (!builder.is_baseline() ==> builder.settings() == Some(trial.hyperparameters))
}

/// Whether `error` is what stands in the way of `trial` with a trainer of
/// the given defaults that has taken the settings of the trial, where the
/// answers can be had here.
pub open spec fn is_fault_of(
    error: PipelineError,
    table: Seq<crate::data::column::Column<Numeric>>,
    label_index: usize,
    trial: TrialView,
    defaults: (int, usize, Numeric, bool),
    task: Task,
) -> bool {
    exists|builder: ModelBuilder| #[trigger]
        trial_fault(table, label_index, trial, builder, task) == Some(error) && builder.defaults() == defaults
            && (!builder.is_baseline() && answers_here(task, builder) ==> builder.settings() == Some(
            trial.hyperparameters,
        ))
}

/// A trainer can build with the settings that the model of an outcome
/// reports of itself.
pub proof fn lemma_scored_settings(
    outcome: Outcome,
    table: Seq<crate::data::column::Column<Numeric>>,
    label_index: usize,
    trial: TrialView,
    defaults: (int, usize, Numeric, bool),
    evaluator: Evaluator,
)
    requires
        is_scored(outcome, table, label_index, trial, defaults, evaluator),
    ensures
        can_build_with(defaults, outcome.hyperparameters@),
{
    let builder = choose|builder: ModelBuilder| #[trigger]
        is_outcome_of(outcome, table, label_index, trial, builder, evaluator) && builder.defaults() == defaults
            && (!builder.is_baseline() ==> builder.settings() == Some(trial.hyperparameters));
    let model = choose|model: Model| #[trigger]
        builder.builds(samples_at(table, trial.train), label_index, Ok(model)) && model.is_usable()
            && outcome.metric == evaluator.score_of(
            labels_for(model, samples_at(table, trial.test)),
            classes_of(samples_at(table, trial.test), label_index as int),
        ) && settings_text(outcome.hyperparameters@) == model.settings();
    if defaults.0 >= 2 {
        match model {
            Model::KNearestNeighbor(knn) => {
                crate::models::knn::lemma_reported_settings(
                    outcome.hyperparameters@,
                    knn.num_neighbors,
                    knn.epsilon,
                    defaults.1,
                    defaults.2,
                );
            },
            Model::Null(_) => {},
        }
    }
}

/// Whether a trial can be carried out on the table: it names rows to
/// train on and rows to score on, and all of them are rows of the table.
pub open spec fn is_sound_trial(trial: TrialView, rows: nat) -> bool {
    &&& trial.train.len() >= 1
    &&& trial.test.len() >= 1
    &&& forall|i: int| 0 <= i < trial.train.len() ==> #[trigger] trial.train[i] < rows
    &&& forall|i: int| 0 <= i < trial.test.len() ==> #[trigger] trial.test[i] < rows
}

/// Whether a trainer of the given kind and defaults can build with the
/// given settings: the baseline always, a nearest-neighbour trainer where
/// the settings are readable and leave it a neighbour.
pub open spec fn can_build_with(defaults: (int, usize, Numeric, bool), settings: Seq<(Seq<char>, String)>) -> bool {
    defaults.0 < 2 || crate::models::knn_simple::chosen_settings(Some(settings), defaults.1, defaults.2) is Ok
}

/// Whether a trainer can build with settings depends on their names and
/// written values alone.
pub proof fn lemma_can_build_by_text(
    defaults: (int, usize, Numeric, bool),
    one: Seq<(Seq<char>, String)>,
    other: Seq<(Seq<char>, String)>,
)
    requires
        settings_text(one) == settings_text(other),
    ensures
        can_build_with(defaults, one) == can_build_with(defaults, other),
{
    assert(one.len() == settings_text(one).len());
    assert(other.len() == settings_text(other).len());
    crate::models::knn::lemma_configured_by_text(one, other, one.len() as int, defaults.1, defaults.2);
}

/// Nothing stands in the way of a sound trial on a table whose columns are
/// equally long and hold the label column, with a trainer that can give the
/// answers asked for and can build with the settings it has taken.
pub proof fn lemma_sound_trial(
    table: Seq<crate::data::column::Column<Numeric>>,
    label_index: usize,
    trial: TrialView,
    builder: ModelBuilder,
    task: Task,
)
    requires
        crate::data::data_frame::equal_lengths(table),
        label_index < table.len(),
        is_sound_trial(trial, table[0]@.len()),
        answers_here(task, builder),
        builder.is_baseline() || builder.settings() == Some(trial.hyperparameters),
        can_build_with(builder.defaults(), trial.hyperparameters),
    ensures
        trial_fault(table, label_index, trial, builder, task) is None,
{
    lemma_rows_labelled(table, label_index, trial.train);
    lemma_rows_labelled(table, label_index, trial.test);
}

/// Rows of a table whose columns are equally long are samples with a
/// place for every column.
pub proof fn lemma_rows_labelled(
    table: Seq<crate::data::column::Column<Numeric>>,
    label_index: usize,
    rows: Seq<usize>,
)
    requires
        crate::data::data_frame::equal_lengths(table),
        label_index < table.len(),
        forall|i: int| 0 <= i < rows.len() ==> #[trigger] rows[i] < table[0]@.len(),
    ensures
        rows_fault(table, rows) is None,
        all_labelled(samples_at(table, rows), label_index as int),
        samples_at(table, rows).len() == rows.len(),
{
    assert forall|i: int| 0 <= i < rows.len() implies 0 <= label_index < (#[trigger] samples_at(table, rows)[i]).len() by {
        crate::data::data_frame::lemma_row_of_table(table, rows[i] as int);
    }
}

/// Carries out a trial: hands the settings of the trial to the trainer,
/// builds a model on the training rows, asks it for the class of every test
/// row and scores the classes.
pub fn fit_and_score(
    table: &DataFrame<Numeric>,
    label_index: usize,
    trial: &Trial,
    builder: &mut ModelBuilder,
    task: Task,
    evaluator: Evaluator,
) -> (scored: Result<Outcome, PipelineError>)
    ensures
        final(builder).defaults() == old(builder).defaults(),
        final(builder).settings() == if old(builder).is_baseline() || !answers_here(task, *old(builder)) {
            old(builder).settings()
        } else {
            Some(trial@.hyperparameters)
        },
        match trial_fault(table@, label_index, trial@, *final(builder), task) {
            Some(error) => scored matches Err(raised) && raised == error,
            None => scored is Ok && is_outcome_of(
                scored.unwrap(),
                table@,
                label_index,
                trial@,
                *final(builder),
                evaluator,
            ),
        },
        scored is Ok && evaluator == Evaluator::ClassificationScore ==> 0 <= scored.unwrap().metric
            <= NUMERIC_SCALE,
{
    let baseline = match builder {
        ModelBuilder::NullRegression(_) => true,
        ModelBuilder::NullClassifier(_) => true,
        _ => false,
    };
    match task {
        Task::Classification => {},
        Task::Regression => {
            if !baseline {
                return Err(PipelineError::InvalidConfig);
            }
        },
    }
    match builder.with_hyperparameters(&trial.hyperparameters) {
        Ok(()) => {},
        Err(error) => {
            return Err(error);
        },
    }
    let train = match gather_rows(table, &trial.train) {
        Ok(samples) => samples,
        Err(error) => {
            return Err(error);
        },
    };
    let test = match gather_rows(table, &trial.test) {
        Ok(samples) => samples,
        Err(error) => {
            return Err(error);
        },
    };
    let model = match builder.build(train.as_slice(), label_index) {
        Ok(model) => model,
        Err(error) => {
            return Err(error);
        },
    };
    let answers = label_all(&model, &test);
    let metric = match evaluator.evaluate(answers.as_slice(), test.as_slice(), label_index) {
        Ok(metric) => metric,
        Err(error) => {
            return Err(error);
        },
    };
    proof {
        if evaluator == Evaluator::ClassificationScore {
            lemma_error_rate_bounds(answers@, classes_of(examples_view(test@), label_index as int));
        }
    }
    Ok(Outcome { metric, hyperparameters: model.get_hyperparameters() })
}

/// The mean of scores between zero and `most` lies between zero and `most`.
pub proof fn lemma_mean_within(values: Seq<Numeric>, most: Numeric)
    requires
        values.len() > 0,
        forall|i: int| 0 <= i < values.len() ==> 0 <= #[trigger] values[i] <= most,
    ensures
        0 <= mean_of(values) <= most,
{
    lemma_total_within(values, most, values.len() as int);
    let sum = total(values, values.len() as int);
    let count = values.len() as int;
    assert(0 <= sum / count <= most) by (nonlinear_arith)
        requires
            0 <= sum <= count * most,
            count > 0,
    ;
}

/// The sum of scores between zero and `most` is at most as many times `most`.
pub proof fn lemma_total_within(values: Seq<Numeric>, most: Numeric, upto: int)
    requires
        0 <= upto <= values.len(),
        forall|i: int| 0 <= i < values.len() ==> 0 <= #[trigger] values[i] <= most,
    ensures
        0 <= total(values, upto) <= upto * most,
    decreases upto,
{
    if upto > 0 {
        lemma_total_within(values, most, upto - 1);
        assert(0 <= values[upto - 1] <= most);
        assert((upto - 1) * most + most == upto * most) by (nonlinear_arith);
    } else {
        assert(0 * most == 0);
    }
}

/// The parameters as settings: every value written as text under its name.
pub open spec fn written(parameters: Seq<(Seq<char>, Numeric)>) -> Seq<(Seq<char>, Seq<char>)> {
    parameters.map_values(|entry: (Seq<char>, Numeric)| (entry.0, crate::text::numeric_text(entry.1)))
}

/// Writes the parameters as settings.
pub fn write_parameters(parameters: &Dictionary<Numeric>) -> (settings: Dictionary<String>)
    ensures
        settings_text(settings@) == written(parameters@),
{
    let mut settings: Dictionary<String> = Dictionary::new();
    let mut at: usize = 0;
    while at < parameters.len()
        invariant
            at <= parameters@.len(),
            settings_text(settings@) == written(parameters@).take(at as int),
        decreases parameters@.len() - at,
    {
        let ghost before = settings@;
        let name = parameters.name_at(at).clone();
        let value = numeric_to_string(*parameters.value_at(at));
        proof {
            assert(settings_text(before).len() == before.len());
            assert(before.len() == at);
            assert(parameters.has_unique_names());
            assert forall|i: int| 0 <= i < before.len() implies (#[trigger] before[i]).0 != name@ by {
                assert(settings_text(before)[i] == (before[i].0, before[i].1@));
                assert(written(parameters@).take(at as int)[i] == written(parameters@)[i]);
                assert(written(parameters@)[i].0 == parameters@[i].0);
                assert(parameters@[i].0 != parameters@[at as int].0);
            }
        }
        settings.insert(name, value);
        proof {
            assert(settings_text(settings@) =~= settings_text(before).push((name@, value@)));
            assert(settings_text(before).push((name@, value@)) =~= written(parameters@).take(at + 1));
        }
        at = at + 1;
    }
    assert(written(parameters@).take(at as int) == written(parameters@));
    settings
}

/// The error that the names of the training stage lead to, if any of them
/// is unknown: the strategy, the partitioner, the evaluator and the model
/// (each `NotFound`), and the task (`InvalidConfig`), in this order.
pub open spec fn naming_fault(configs: &ConfigStruct) -> Option<PipelineError> {
    let training = configs.training;
    if strategy_named(training.strategy@) is None {
        Some(PipelineError::NotFound)
    } else if partitioner_named(training.partitioning.strategy@) is None {
        Some(PipelineError::NotFound)
    } else if evaluator_named(training.evaluation@) is None {
        Some(PipelineError::NotFound)
    } else if builder_defaults(training.model.name@) is None {
        Some(PipelineError::NotFound)
    } else if task_named(training.model.task@) is None {
        Some(PipelineError::InvalidConfig)
    } else {
        None
    }
}

/// The settings that the simple strategy hands to the trainer: the
/// parameters of the model, each written as text, or none.
pub open spec fn model_settings(configs: &ConfigStruct) -> Seq<(Seq<char>, Seq<char>)> {
    match configs.training.model.parameters {
        Some(parameters) => written(parameters@),
        None => Seq::empty(),
    }
}

/// Whether `result` is what the training stage of `configs` may end in on
/// `df`, its names being known: for `simple`, what a run of the simple
/// strategy may end in with the named partitioner, evaluator and trainer
/// and the settings of the model; for `kx2-folds`, `InvalidConfig` for a
/// grid of more combinations than can be counted, and else what a run of
/// the k-by-2 strategy may end in with the combinations of the grid.
pub open spec fn is_training_result(df: &DataFrame<Numeric>, configs: &ConfigStruct, result: Result<
    Numeric,
    PipelineError,
>) -> bool {
    let training = configs.training;
    let partitioner = partitioner_named(training.partitioning.strategy@).unwrap();
    let evaluator = evaluator_named(training.evaluation@).unwrap();
    let defaults = builder_defaults(training.model.name@).unwrap();
    let task = task_named(training.model.task@).unwrap();
    match strategy_named(training.strategy@).unwrap() {
        Strategy::Simple => exists|settings: Seq<(Seq<char>, String)>|
            settings_text(settings) == model_settings(configs) && #[trigger] Simple::is_result(
                df,
                training.label_index,
                partitioner,
                &training.partitioning.parameters,
                settings,
                defaults,
                task,
                evaluator,
                result,
            ),
        Strategy::Kx2Folds => if combination_count(candidates_of(training.tunning.parameters@)) > usize::MAX {
            result == Err::<Numeric, PipelineError>(PipelineError::InvalidConfig)
        } else {
            exists|combinations: Seq<Dictionary<String>>|
                is_grid_of(combinations, training.tunning.parameters@) && #[trigger] Kx2Folds::is_result(
                    df,
                    training.label_index,
                    combinations,
                    defaults,
                    task,
                    evaluator,
                    result,
                )
        },
    }
}

/// Trains and scores as the training stage of `configs` says, with the
/// run of the named strategy, and returns its result: for `simple` what
/// `Simple::run` returns, the score of the last fold, for `kx2-folds` what
/// `Kx2Folds::run` returns, the mean of the ten scores of the
/// cross-validation, on stratified folds whatever partitioner is named.
///
/// The models are asked for classes. A configuration that asks a
/// nearest-neighbour model for predictions ends in `InvalidConfig`: the
/// caller then has to work through the trials of the director itself.
pub fn train_and_evaluate(df: &DataFrame<Numeric>, configs: &ConfigStruct, rng: &mut StdRng) -> (result: Result<
    Numeric,
    PipelineError,
>)
    ensures
        naming_fault(configs) matches Some(error) ==> result == Err::<Numeric, PipelineError>(error),
        naming_fault(configs) is None ==> is_training_result(df, configs, result),
        naming_fault(configs) is None && strategy_named(configs.training.strategy@) == Some(Strategy::Simple)
            && (forall|settings: Seq<(Seq<char>, String)>|
            settings_text(settings) == model_settings(configs) ==> #[trigger] Simple::is_runnable(
                df,
                configs.training.label_index,
                partitioner_named(configs.training.partitioning.strategy@).unwrap(),
                &configs.training.partitioning.parameters,
                settings,
                builder_defaults(configs.training.model.name@).unwrap(),
                task_named(configs.training.model.task@).unwrap(),
            )) ==> result is Ok,
        naming_fault(configs) is None && strategy_named(configs.training.strategy@) == Some(Strategy::Kx2Folds)
            && combination_count(candidates_of(configs.training.tunning.parameters@)) <= usize::MAX && (forall|
            combinations: Seq<Dictionary<String>>,
        |
            is_grid_of(combinations, configs.training.tunning.parameters@) ==> #[trigger] Kx2Folds::is_runnable(
                df,
                configs.training.label_index,
                combinations,
                builder_defaults(configs.training.model.name@).unwrap(),
                task_named(configs.training.model.task@).unwrap(),
            )) ==> result is Ok,
        result is Ok && configs.training.evaluation@ == "classification-score"@ ==> 0 <= result.unwrap()
            <= NUMERIC_SCALE,
{
    let training = &configs.training;
    let strategy = match get_strategy(training.strategy.as_str()) {
        Ok(strategy) => strategy,
        Err(error) => {
            return Err(error);
        },
    };
    let partitioner = match get_partitioner(training.partitioning.strategy.as_str()) {
        Ok(partitioner) => partitioner,
        Err(error) => {
            return Err(error);
        },
    };
    let evaluator = match get_evaluator(training.evaluation.as_str()) {
        Ok(evaluator) => evaluator,
        Err(error) => {
            return Err(error);
        },
    };
    let mut builder = match get_model_builder(training.model.name.as_str()) {
        Ok(builder) => builder,
        Err(error) => {
            return Err(error);
        },
    };
    let task = match get_task(training.model.task.as_str()) {
        Ok(task) => task,
        Err(error) => {
            return Err(error);
        },
    };
    let ghost defaults = builder.defaults();
    match strategy {
        Strategy::Simple => {
            let settings = match &training.model.parameters {
                Some(parameters) => write_parameters(parameters),
                None => Dictionary::new(),
            };
            proof {
                assert(settings_text(settings@) =~= model_settings(configs));
            }
            let result = Simple::run(
                df,
                training.label_index,
                partitioner,
                &training.partitioning.parameters,
                &settings,
                &mut builder,
                task,
                evaluator,
                rng,
            );
            proof {
                assert(Simple::is_result(
                    df,
                    training.label_index,
                    partitioner,
                    &training.partitioning.parameters,
                    settings@,
                    defaults,
                    task,
                    evaluator,
                    result,
                ));
                assert(naming_fault(configs) is None);
                assert(defaults == builder_defaults(training.model.name@).unwrap());
                assert(partitioner == partitioner_named(training.partitioning.strategy@).unwrap());
                assert(strategy_named(training.strategy@) == Some(Strategy::Simple));
                assert(is_training_result(df, configs, result));
            }
            result
        },
        Strategy::Kx2Folds => {
            let combinations = match get_hyperparameter_combinations(&training.tunning.parameters) {
                Ok(combinations) => combinations,
                Err(error) => {
                    return Err(error);
                },
            };
            let ghost drawn = combinations@;
            let result = Kx2Folds::run(
                df,
                training.label_index,
                combinations,
                &mut builder,
                task,
                evaluator,
                rng,
            );
            proof {
                assert(is_grid_of(drawn, training.tunning.parameters@));
                assert(Kx2Folds::is_result(df, training.label_index, drawn, defaults, task, evaluator, result));
                assert(strategy_named(training.strategy@) == Some(Strategy::Kx2Folds));
                assert(defaults == builder_defaults(training.model.name@).unwrap());
                assert(combination_count(candidates_of(training.tunning.parameters@)) <= usize::MAX);
                assert(is_training_result(df, configs, result));
            }
            result
        },
    }
}

/// A copy of `rows`.
pub fn copy_rows(rows: &Vec<usize>) -> (copy: Vec<usize>)
    ensures
        copy@ == rows@,
{
    let mut copy: Vec<usize> = Vec::new();
    crate::validation::append_range(&mut copy, rows, 0, rows.len());
    assert(rows@.subrange(0, rows@.len() as int) == rows@);
    copy
}

} // verus!

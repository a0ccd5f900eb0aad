//! The simple strategy: one partition of the table, one trial for each of
//! its folds, and the score of the last fold as the result.

use crate::data::data_frame::DataFrame;
use crate::dictionary::Dictionary;
use crate::evaluation::Evaluator;
use crate::models::ModelBuilder;
use crate::data::data_frame::equal_lengths;
use crate::trainers::{
    answers_with, can_build_with, copy_rows, fit_and_score, is_fault_of, is_outcome_of, is_scored,
    is_sound_trial, lemma_sound_trial, trial_fault, Outcome, Step, Task, Trial,
};
use crate::validation::kfold::{kfold_folds, lemma_kfold_nonempty};
use crate::validation::kfold_stratified::{
    class_rows, lemma_stratified_nonempty, lemma_stratified_rows_below, stratified_folds,
};
use crate::validation::{is_arrangement, lemma_arrangement, requested_folds};
use crate::types::{Numeric, PipelineError};
use crate::validation::kfold::KFold;
use crate::validation::kfold_stratified::StratifiedKFold;
use crate::validation::{folds_view, Partitioner};
use rand::rngs::StdRng;
use vstd::prelude::*;

verus! {

/// The director of the simple strategy: the folds of a run and how many
/// of their trials were handed out.
pub struct Simple {
    folds: Vec<(Vec<usize>, Vec<usize>)>,
    hyperparameters: Dictionary<String>,
    handed_out: usize,
}

impl Simple {
    /// The folds that the trials go through, in order.
    pub closed spec fn folds(&self) -> Seq<(Vec<usize>, Vec<usize>)> {
        self.folds@
    }

    /// The settings of every trial.
    pub closed spec fn hyperparameters(&self) -> Seq<(Seq<char>, String)> {
        self.hyperparameters@
    }

    /// How many trials were handed out.
    pub closed spec fn handed_out(&self) -> nat {
        self.handed_out as nat
    }

    /// Whether the director is in order: a trial is out, and no more were
    /// handed out than there are folds.
    pub closed spec fn wf(&self) -> bool {
        1 <= self.handed_out <= self.folds@.len()
    }

    /// The trial for fold `i`: train on the training rows of the fold, score
    /// on its validation rows.
    pub open spec fn trial_of(&self, i: int) -> crate::trainers::TrialView {
        crate::trainers::TrialView {
            train: self.folds()[i].0@,
            test: self.folds()[i].1@,
            hyperparameters: self.hyperparameters(),
        }
    }

    fn trial(&self, i: usize) -> (trial: Trial)
        requires
            i < self.folds@.len(),
        ensures
            trial@ == self.trial_of(i as int),
    {
        Trial {
            train: copy_rows(&self.folds[i].0),
            test: copy_rows(&self.folds[i].1),
            hyperparameters: self.hyperparameters.duplicate(),
        }
    }

    /// Partitions `table` with `partitioner` and hands out the trial for the
    /// first fold. What the partitioner turns down is turned down here.
    pub fn begin(
        table: &DataFrame<Numeric>,
        label_column_idx: usize,
        partitioner: Partitioner,
        parameters: &Dictionary<Numeric>,
        hyperparameters: &Dictionary<String>,
        rng: &mut StdRng,
    ) -> (begun: Result<(Simple, Trial), PipelineError>)
        ensures
            begun matches Err(error) ==> error == PipelineError::InvalidParams,
            partitioner == Partitioner::KFold ==> (begun is Err <==> KFold::rejects(
                table,
                label_column_idx,
                parameters,
            )),
            partitioner == Partitioner::StratifiedKFold ==> (begun is Err <==> StratifiedKFold::rejects(
                table,
                label_column_idx,
                parameters,
            )),
            begun is Ok ==> {
                let (director, trial) = begun.unwrap();
                &&& director.wf()
                &&& director.handed_out() == 1
                &&& director.hyperparameters() == hyperparameters@
                &&& partitioner == Partitioner::KFold ==> KFold::deals(
                    table,
                    label_column_idx,
                    parameters,
                    director.folds(),
                )
                &&& partitioner == Partitioner::StratifiedKFold ==> StratifiedKFold::deals(
                    table,
                    label_column_idx,
                    parameters,
                    director.folds(),
                )
                &&& trial@ == director.trial_of(0)
            },
    {
        let folds = match partitioner.partition(table, label_column_idx, parameters, rng) {
            Ok(folds) => folds,
            Err(error) => {
                return Err(error);
            },
        };
        proof {
            assert(folds_view(folds@).len() == folds@.len());
        }
        let director = Simple { folds, hyperparameters: hyperparameters.duplicate(), handed_out: 1 };
        let trial = director.trial(0);
        Ok((director, trial))
    }

    /// Whether the folds of the director are what `partitioner` deals the
    /// rows of `table` into.
    pub open spec fn follows(
        &self,
        table: &DataFrame<Numeric>,
        label_column_idx: usize,
        partitioner: Partitioner,
        parameters: &Dictionary<Numeric>,
    ) -> bool {
        match partitioner {
            Partitioner::KFold => KFold::deals(table, label_column_idx, parameters, self.folds()),
            Partitioner::StratifiedKFold => StratifiedKFold::deals(
                table,
                label_column_idx,
                parameters,
                self.folds(),
            ),
        }
    }

    /// Whether the simple strategy cannot fail on the table: the columns
    /// are equally long, the partitioner does not turn the request down and
    /// leaves no fold without rows (for the stratified one, because a class
    /// has a row for each fold), the answers asked for can be had here, and
    /// the trainer can build with the settings.
    pub open spec fn is_runnable(
        table: &DataFrame<Numeric>,
        label_column_idx: usize,
        partitioner: Partitioner,
        parameters: &Dictionary<Numeric>,
        hyperparameters: Seq<(Seq<char>, String)>,
        defaults: (int, usize, Numeric, bool),
        task: Task,
    ) -> bool {
        &&& equal_lengths(table@)
        &&& answers_with(task, defaults)
        &&& can_build_with(defaults, hyperparameters)
        &&& match partitioner {
            Partitioner::KFold => !KFold::rejects(table, label_column_idx, parameters),
            Partitioner::StratifiedKFold => !StratifiedKFold::rejects(table, label_column_idx, parameters)
                && exists|key: Numeric|
                (#[trigger] class_rows(
                    table@[label_column_idx as int]@,
                    key,
                    table@[label_column_idx as int]@.len() as int,
                )).len() >= requested_folds(parameters).unwrap(),
        }
    }

    /// On a table that the strategy cannot fail on, every trial of the
    /// director is sound.
    pub proof fn lemma_trials_sound(
        &self,
        table: &DataFrame<Numeric>,
        label_column_idx: usize,
        partitioner: Partitioner,
        parameters: &Dictionary<Numeric>,
        defaults: (int, usize, Numeric, bool),
        task: Task,
        i: int,
    )
        requires
            self.follows(table, label_column_idx, partitioner, parameters),
            Simple::is_runnable(
                table,
                label_column_idx,
                partitioner,
                parameters,
                self.hyperparameters(),
                defaults,
                task,
            ),
            table@[label_column_idx as int]@.len() <= usize::MAX,
            0 <= i < self.folds().len(),
        ensures
            is_sound_trial(self.trial_of(i), table@[0]@.len()),
    {
        let labels = table@[label_column_idx as int]@;
        let k = requested_folds(parameters).unwrap() as int;
        assert(labels.len() == table@[0]@.len());
        assert(folds_view(self.folds())[i] == (self.folds()[i].0@, self.folds()[i].1@));
        match partitioner {
            Partitioner::KFold => {
                let shuffled = choose|shuffled: Seq<usize>|
                    is_arrangement(shuffled, labels.len()) && folds_view(self.folds()) == #[trigger] kfold_folds(
                        shuffled,
                        k,
                    );
                lemma_arrangement(shuffled, labels.len());
                assert(folds_view(self.folds()).len() == self.folds().len());
                assert(kfold_folds(shuffled, k).len() == k);
                lemma_kfold_nonempty(shuffled, k, i);
                let fold = crate::validation::kfold::kfold_fold(shuffled, k, i);
                assert(kfold_folds(shuffled, k)[i] == fold);
                let trial = self.trial_of(i);
                assert(trial.train == fold.0 && trial.test == fold.1);
                assert forall|j: int| 0 <= j < trial.train.len() implies #[trigger] trial.train[j] < table@[0]@.len() by {
                    assert(fold.0[j] < shuffled.len());
                }
                assert forall|j: int| 0 <= j < trial.test.len() implies #[trigger] trial.test[j] < table@[0]@.len() by {
                    assert(fold.1[j] < shuffled.len());
                }
            },
            Partitioner::StratifiedKFold => {
                let shuffled = choose|shuffled: Seq<Seq<usize>>|
                    StratifiedKFold::shuffles(shuffled, labels) && folds_view(self.folds())
                        == #[trigger] stratified_folds(shuffled, k);
                let key = choose|key: Numeric|
                    (#[trigger] class_rows(labels, key, labels.len() as int)).len() >= k;
                assert(folds_view(self.folds()).len() == self.folds().len());
                assert(stratified_folds(shuffled, k).len() == k);
                lemma_stratified_nonempty(shuffled, labels, k, i, key);
                let fold = stratified_folds(shuffled, k)[i];
                assert forall|j: int| 0 <= j < fold.0.len() implies #[trigger] fold.0[j] < labels.len() by {
                    assert(fold.0.contains(fold.0[j]));
                    lemma_stratified_rows_below(shuffled, labels, k, i, fold.0[j]);
                }
                assert forall|j: int| 0 <= j < fold.1.len() implies #[trigger] fold.1[j] < labels.len() by {
                    assert(fold.1.contains(fold.1[j]));
                    lemma_stratified_rows_below(shuffled, labels, k, i, fold.1[j]);
                }
                let trial = self.trial_of(i);
                assert(trial.train == fold.0 && trial.test == fold.1);
                assert(is_sound_trial(trial, table@[0]@.len()));
            },
        }
    }

    /// Whether `result` is what a run of the simple strategy may end in: the
    /// rejection of the partitioner; success where the strategy cannot fail;
    /// as a score, that of the outcome of the trial of the last fold; as
    /// any other error, what stands in the way of the trial of one of the
    /// folds; and an error rate between nothing and all.
    pub open spec fn is_result(
        table: &DataFrame<Numeric>,
        label_column_idx: usize,
        partitioner: Partitioner,
        parameters: &Dictionary<Numeric>,
        hyperparameters: Seq<(Seq<char>, String)>,
        defaults: (int, usize, Numeric, bool),
        task: Task,
        evaluator: Evaluator,
        result: Result<Numeric, PipelineError>,
    ) -> bool {
        &&& (partitioner == Partitioner::KFold && KFold::rejects(table, label_column_idx, parameters) ==> result
                == Err::<Numeric, PipelineError>(PipelineError::InvalidParams))
        &&& (partitioner == Partitioner::StratifiedKFold && StratifiedKFold::rejects(
            table,
            label_column_idx,
            parameters,
        ) ==> result == Err::<Numeric, PipelineError>(PipelineError::InvalidParams))
        &&& (Simple::is_runnable(
            table,
            label_column_idx,
            partitioner,
            parameters,
            hyperparameters,
            defaults,
            task,
        ) ==> result is Ok)
        &&& (result matches Ok(score) ==> exists|director: Simple, outcome: Outcome|
                #![trigger director.follows(table, label_column_idx, partitioner, parameters), outcome.metric]
                director.follows(table, label_column_idx, partitioner, parameters) && director.folds().len() > 0
                    && director.hyperparameters() == hyperparameters && is_scored(
                    outcome,
                    table@,
                    label_column_idx,
                    director.trial_of(director.folds().len() - 1),
                    defaults,
                    evaluator,
                ) && score == outcome.metric)
        &&& (result matches Err(error) ==> (!Simple::is_rejected(table, label_column_idx, partitioner, parameters)
                ==> exists|director: Simple, i: int|
                #![trigger director.trial_of(i)]
                director.follows(table, label_column_idx, partitioner, parameters) && director.hyperparameters()
                    == hyperparameters && 0 <= i < director.folds().len() && is_fault_of(
                    error,
                    table@,
                    label_column_idx,
                    director.trial_of(i),
                    defaults,
                    task,
                )))
        &&& (result is Ok && evaluator == Evaluator::ClassificationScore ==> 0 <= result.unwrap()
                <= crate::types::NUMERIC_SCALE)
    }

    /// Goes through the simple strategy: partitions `table`, carries out
    /// the trial of every fold with `fit_and_score`, and returns the score of
    /// the last fold. The first trial that fails ends the run with its error.
    pub fn run(
        table: &DataFrame<Numeric>,
        label_column_idx: usize,
        partitioner: Partitioner,
        parameters: &Dictionary<Numeric>,
        hyperparameters: &Dictionary<String>,
        builder: &mut ModelBuilder,
        task: Task,
        evaluator: Evaluator,
        rng: &mut StdRng,
    ) -> (result: Result<Numeric, PipelineError>)
        ensures
            final(builder).defaults() == old(builder).defaults(),
            Simple::is_result(
                table,
                label_column_idx,
                partitioner,
                parameters,
                hyperparameters@,
                old(builder).defaults(),
                task,
                evaluator,
                result,
            ),
    {
        let ghost runnable = Simple::is_runnable(
            table,
            label_column_idx,
            partitioner,
            parameters,
            hyperparameters@,
            builder.defaults(),
            task,
        );
        let ghost defaults = builder.defaults();
        let (mut director, first) = match Simple::begin(
            table,
            label_column_idx,
            partitioner,
            parameters,
            hyperparameters,
            rng,
        ) {
            Ok(begun) => begun,
            Err(error) => {
                return Err(error);
            },
        };
        let count = match table.get_column_idx(label_column_idx) {
            Some(column) => column.len(),
            None => 0,
        };
        let mut trial = first;
        loop
            invariant
                director.wf(),
                !Simple::is_rejected(table, label_column_idx, partitioner, parameters),
                label_column_idx < table@.len(),
                table@[label_column_idx as int]@.len() <= usize::MAX,
                director.follows(table, label_column_idx, partitioner, parameters),
                director.hyperparameters() == hyperparameters@,
                trial@ == director.trial_of(director.handed_out() - 1),
                defaults == old(builder).defaults(),
                builder.defaults() == defaults,
                runnable == Simple::is_runnable(
                    table,
                    label_column_idx,
                    partitioner,
                    parameters,
                    hyperparameters@,
                    old(builder).defaults(),
                    task,
                ),
            decreases director.folds().len() - director.handed_out(),
        {
            let outcome = match fit_and_score(table, label_column_idx, &trial, builder, task, evaluator) {
                Ok(outcome) => outcome,
                Err(error) => {
                    proof {
                        assert(trial_fault(table@, label_column_idx, trial@, *builder, task) == Some(error));
                        if runnable {
                            director.lemma_trials_sound(
                                table,
                                label_column_idx,
                                partitioner,
                                parameters,
                                defaults,
                                task,
                                director.handed_out() - 1,
                            );
                            lemma_sound_trial(table@, label_column_idx, trial@, *builder, task);
                        }
                    }
                    return Err(error);
                },
            };
            let ghost scored = outcome;
            let ghost before = director;
            proof {
                assert(is_outcome_of(scored, table@, label_column_idx, trial@, *builder, evaluator));
            }
            match director.advance(outcome) {
                Step::Fit(next) => {
                    trial = next;
                },
                Step::Done(score) => {
                    proof {
                        assert(before.handed_out() == before.folds().len());
                        assert(before.follows(table, label_column_idx, partitioner, parameters));
                        assert(is_scored(
                            scored,
                            table@,
                            label_column_idx,
                            before.trial_of(before.folds().len() - 1),
                            defaults,
                            evaluator,
                        ));
                        assert(score == scored.metric);
                    }
                    return Ok(score);
                },
            }
        }
    }

    /// Whether the partitioner turns the request down.
    pub open spec fn is_rejected(
        table: &DataFrame<Numeric>,
        label_column_idx: usize,
        partitioner: Partitioner,
        parameters: &Dictionary<Numeric>,
    ) -> bool {
        match partitioner {
            Partitioner::KFold => KFold::rejects(table, label_column_idx, parameters),
            Partitioner::StratifiedKFold => StratifiedKFold::rejects(table, label_column_idx, parameters),
        }
    }

    /// Takes the outcome of the trial that is out: where a fold is left, its
    /// trial is next; after the last fold the score of that fold is the result.
    pub fn advance(&mut self, outcome: Outcome) -> (step: Step)
        requires
            old(self).wf(),
        ensures
            final(self).folds() == old(self).folds(),
            final(self).hyperparameters() == old(self).hyperparameters(),
            old(self).handed_out() < old(self).folds().len() ==> final(self).wf() && final(self).handed_out()
                == old(self).handed_out() + 1 && step is Fit && step->Fit_0@ == old(self).trial_of(
                old(self).handed_out() as int,
            ),
            old(self).handed_out() >= old(self).folds().len() ==> step == Step::Done(outcome.metric)
                && final(self).handed_out() == old(self).handed_out(),
    {
        if self.handed_out < self.folds.len() {
            let trial = self.trial(self.handed_out);
            self.handed_out = self.handed_out + 1;
            Step::Fit(trial)
        } else {
            Step::Done(outcome.metric)
        }
    }
}

} // verus!

//! The k-by-2 strategy: a fifth of the table is held out, ten candidate
//! models are tried against it on halves of the rest, and the settings of
//! the best are then scored by five two-fold cross-validations of the rest.

use crate::dictionary::Dictionary;
use crate::models::null::{mean, mean_of};
use crate::random::{choose_from, gen_below};
use crate::data::data_frame::DataFrame;
use crate::evaluation::Evaluator;
use crate::models::ModelBuilder;
use crate::trainers::{
    best_candidate, copy_rows, fit_and_score, is_fault_of, is_outcome_of, is_scored, labels_at, trial_fault, lemma_mean_within, map_rows, mapped, metrics_of,
    select_best, select_labels, Outcome, Step, Task, Trial, TrialView,
};
use crate::types::NUMERIC_SCALE;
use crate::types::{Numeric, PipelineError};
use crate::validation::kfold::row_numbers;
use crate::data::data_frame::equal_lengths;
use crate::trainers::{
    answers_with, can_build_with, is_sound_trial, lemma_best_candidate, lemma_class_rows_of_chosen,
    lemma_scored_settings, lemma_sound_trial,
};
use crate::validation::folds_view;
use crate::validation::kfold_stratified::{
    class_groups, class_keys, class_rows, group_training, lemma_class_count_training, lemma_class_keys,
    lemma_class_rows, lemma_group_bounds, lemma_same_elements_of_groups, lemma_stratified_nonempty,
    lemma_stratified_rows_below, stratified_folds, stratified_rows, StratifiedKFold,
};
use crate::validation::rows_below;
use rand::rngs::StdRng;
use vstd::prelude::*;

verus! {

/// The number of folds of which one is held out.
pub const HOLDOUT_FOLDS: usize = 5;

/// The number of candidate models that are tried against the holdout.
pub const EXPLORATION_TRIALS: usize = 10;

/// The number of scores that the result is the mean of.
pub const ESTIMATION_TRIALS: usize = 10;

/// The director of the k-by-2 strategy: where a run stands between its
/// twenty trials.
pub struct Kx2Folds {
    working: Vec<usize>,
    holdout: Vec<usize>,
    working_labels: Vec<Numeric>,
    combinations: Vec<Dictionary<String>>,
    candidates: Vec<Outcome>,
    metrics: Vec<Numeric>,
    pending: Option<Trial>,
    trials: Ghost<Seq<TrialView>>,
}

/// The combinations as plain values.
pub open spec fn combinations_view(combinations: Seq<Dictionary<String>>) -> Seq<Seq<(Seq<char>, String)>> {
    combinations.map_values(|combination: Dictionary<String>| combination@)
}

/// A round of one director is a round of another that has the same rows,
/// labels and combinations and, for a round of the cross-validation, the
/// same candidates.
pub proof fn lemma_round_stable(one: Kx2Folds, other: Kx2Folds, place: int, first: TrialView, second: TrialView)
    requires
        one.working() == other.working(),
        one.holdout() == other.holdout(),
        one.working_labels() == other.working_labels(),
        one.combinations() == other.combinations(),
        place >= EXPLORATION_TRIALS ==> one.candidates() == other.candidates(),
        one.is_round_at(place, first, second),
    ensures
        other.is_round_at(place, first, second),
{
    if place < EXPLORATION_TRIALS {
        let folds = choose|folds: Seq<(Vec<usize>, Vec<usize>)>| #[trigger]
            StratifiedKFold::deals_labels(one.working_labels(), 2, folds) && folds.len() == 2 && first.train
                == mapped(folds[0].0@, one.working()) && second.train == mapped(folds[0].1@, one.working())
                && first.test == one.holdout() && second.test == one.holdout() && one.combinations().contains(
                first.hyperparameters,
            ) && one.combinations().contains(second.hyperparameters);
        assert(StratifiedKFold::deals_labels(other.working_labels(), 2, folds));
    } else {
        let folds = choose|folds: Seq<(Vec<usize>, Vec<usize>)>| #[trigger]
            StratifiedKFold::deals_labels(one.working_labels(), 2, folds) && folds.len() == 2 && first.train
                == mapped(folds[0].0@, one.working()) && first.test == mapped(folds[0].1@, one.working())
                && second.train == mapped(folds[1].0@, one.working()) && second.test == mapped(
                folds[1].1@,
                one.working(),
            ) && first.hyperparameters == one.best_settings() && second.hyperparameters == one.best_settings();
        assert(StratifiedKFold::deals_labels(other.working_labels(), 2, folds));
    }
}

/// The rounds among the trials of a director stay rounds as it goes on:
/// for another director with the same rows, labels and combinations, whose
/// trials are those of the first and at most one more, which ends a round
/// only where the first has planned it so.
pub proof fn lemma_rounds_kept(one: Kx2Folds, other: Kx2Folds)
    requires
        one.working() == other.working(),
        one.holdout() == other.holdout(),
        one.working_labels() == other.working_labels(),
        one.combinations() == other.combinations(),
        one.trials().len() > EXPLORATION_TRIALS ==> one.candidates() == other.candidates(),
        one.trials().len() <= other.trials().len() <= one.trials().len() + 1,
        other.trials().take(one.trials().len() as int) == one.trials(),
        forall|i: int|
            #![trigger one.trials()[i]]
            0 <= i && i % 2 == 0 && i + 1 < one.trials().len() ==> one.is_round_at(
                i,
                one.trials()[i],
                one.trials()[i + 1],
            ),
        other.trials().len() == one.trials().len() + 1 && one.trials().len() % 2 == 1 ==> one.is_round_at(
            one.trials().len() - 1,
            one.trials().last(),
            other.trials().last(),
        ),
    ensures
        forall|i: int|
            #![trigger other.trials()[i]]
            0 <= i && i % 2 == 0 && i + 1 < other.trials().len() ==> other.is_round_at(
                i,
                other.trials()[i],
                other.trials()[i + 1],
            ),
{
    assert forall|i: int|
        #![trigger other.trials()[i]]
        0 <= i && i % 2 == 0 && i + 1 < other.trials().len() implies other.is_round_at(
        i,
        other.trials()[i],
        other.trials()[i + 1],
    ) by {
        let before = one.trials();
        if i + 1 < before.len() {
            assert(other.trials()[i] == before[i]);
            assert(other.trials()[i + 1] == before[i + 1]);
            assert(one.is_round_at(i, before[i], before[i + 1]));
        } else {
            assert(other.trials()[i] == before[i]);
            assert(before.last() == before[i]);
        }
        lemma_round_stable(one, other, i, other.trials()[i], other.trials()[i + 1]);
    }
}

/// A director that has rows for every trial keeps them as it goes on.
pub proof fn lemma_workable_kept(one: Kx2Folds, other: Kx2Folds)
    requires
        one.working() == other.working(),
        one.holdout() == other.holdout(),
        one.working_labels() == other.working_labels(),
    ensures
        one.is_workable() ==> other.is_workable(),
{
    if one.is_workable() {
        let key = choose|key: Numeric|
            (#[trigger] class_rows(one.working_labels(), key, one.working_labels().len() as int)).len() >= 2;
        assert(class_rows(other.working_labels(), key, other.working_labels().len() as int).len() >= 2);
    }
}

/// Whether `metric` is the score of an outcome that comes of `trial`.
pub open spec fn has_score(
    metric: Numeric,
    table: Seq<crate::data::column::Column<Numeric>>,
    label_index: usize,
    trial: TrialView,
    defaults: (int, usize, Numeric, bool),
    evaluator: Evaluator,
) -> bool {
    exists|outcome: Outcome| #[trigger]
        is_scored(outcome, table, label_index, trial, defaults, evaluator) && outcome.metric == metric
}

/// A director whose outcomes all come of its trials stays so when it
/// takes, for the trial that is out, an outcome that comes of that trial.
pub proof fn lemma_scores_kept(
    one: Kx2Folds,
    other: Kx2Folds,
    outcome: Outcome,
    table: Seq<crate::data::column::Column<Numeric>>,
    label_index: usize,
    defaults: (int, usize, Numeric, bool),
    evaluator: Evaluator,
)
    requires
        one.is_scored_on(table, label_index, defaults, evaluator),
        one.trials().len() == one.trials_done() + 1,
        one.candidates().len() <= EXPLORATION_TRIALS,
        one.metrics().len() > 0 ==> one.candidates().len() == EXPLORATION_TRIALS,
        is_scored(outcome, table, label_index, one.trials().last(), defaults, evaluator),
        other.trials().len() >= one.trials().len(),
        other.trials().take(one.trials().len() as int) == one.trials(),
        one.candidates().len() < EXPLORATION_TRIALS ==> other.candidates() == one.candidates().push(outcome)
            && other.metrics() == one.metrics(),
        one.candidates().len() >= EXPLORATION_TRIALS ==> other.candidates() == one.candidates()
            && other.metrics() == one.metrics().push(outcome.metric),
    ensures
        other.is_scored_on(table, label_index, defaults, evaluator),
{
    let handed = one.trials();
    assert forall|i: int| 0 <= i < other.candidates().len() implies is_scored(
        #[trigger] other.candidates()[i],
        table,
        label_index,
        other.trials()[i],
        defaults,
        evaluator,
    ) by {
        assert(other.trials()[i] == handed[i]);
        if i < one.candidates().len() {
            assert(other.candidates()[i] == one.candidates()[i]);
        }
    }
    assert forall|i: int| 0 <= i < other.metrics().len() implies has_score(
        #[trigger] other.metrics()[i],
        table,
        label_index,
        other.trials()[EXPLORATION_TRIALS + i],
        defaults,
        evaluator,
    ) by {
        assert(other.trials()[EXPLORATION_TRIALS + i] == handed[EXPLORATION_TRIALS + i]);
        if i < one.metrics().len() {
            assert(other.metrics()[i] == one.metrics()[i]);
        }
    }
}

impl Kx2Folds {
    /// The rows that models are fitted and cross-validated on.
    pub closed spec fn working(&self) -> Seq<usize> {
        self.working@
    }

    /// The rows that are held out for the choice among the candidates.
    pub closed spec fn holdout(&self) -> Seq<usize> {
        self.holdout@
    }

    /// The labels of the working rows, in their order.
    pub closed spec fn working_labels(&self) -> Seq<Numeric> {
        self.working_labels@
    }

    /// The settings that candidates are drawn from.
    pub closed spec fn combinations(&self) -> Seq<Seq<(Seq<char>, String)>> {
        combinations_view(self.combinations@)
    }

    /// The outcomes of the candidates tried so far, in their order.
    pub closed spec fn candidates(&self) -> Seq<Outcome> {
        self.candidates@
    }

    /// The scores of the cross-validation so far, in their order.
    pub closed spec fn metrics(&self) -> Seq<Numeric> {
        self.metrics@
    }

    /// The trial that is planned as the next one, where one is planned.
    pub closed spec fn pending(&self) -> Option<TrialView> {
        match self.pending {
            Some(trial) => Some(trial@),
            None => None,
        }
    }

    /// The trials that the director has handed out, in their order.
    pub closed spec fn trials(&self) -> Seq<TrialView> {
        self.trials@
    }

    /// How many outcomes the director has taken.
    pub open spec fn trials_done(&self) -> nat {
        self.candidates().len() + self.metrics().len()
    }

    /// Whether the director has taken the last outcome.
    pub open spec fn is_finished(&self) -> bool {
        self.trials_done() == EXPLORATION_TRIALS + ESTIMATION_TRIALS
    }

    /// Whether the director is in order: there are settings to draw from,
    /// the cross-validation starts after the last candidate, trials are
    /// planned in pairs, and every working row has its label.
    pub closed spec fn wf(&self) -> bool {
        &&& self.combinations@.len() > 0
        &&& self.candidates@.len() <= EXPLORATION_TRIALS
        &&& self.metrics@.len() <= ESTIMATION_TRIALS
        &&& self.metrics@.len() > 0 ==> self.candidates@.len() == EXPLORATION_TRIALS
        &&& self.working_labels@.len() == self.working@.len()
        &&& self.is_finished() ==> self.pending is None
        &&& !self.is_finished() ==> (self.pending is Some <==> self.trials_done() % 2 == 0)
    }

    /// Whether the working rows and the holdout are the two sides of one of
    /// the five stratified folds of the rows that carry `labels`.
    pub open spec fn is_carved_from(&self, labels: Seq<Numeric>) -> bool {
        exists|folds: Seq<(Vec<usize>, Vec<usize>)>, i: int|
            #![trigger StratifiedKFold::deals_labels(labels, HOLDOUT_FOLDS as int, folds), folds[i]]
            StratifiedKFold::deals_labels(labels, HOLDOUT_FOLDS as int, folds) && 0 <= i < HOLDOUT_FOLDS
                && folds.len() == HOLDOUT_FOLDS && self.working() == folds[i].0@ && self.holdout()
                == folds[i].1@ && self.working_labels() == labels_at(labels, self.working()) && rows_below(
                folds,
                labels.len(),
            )
    }

    /// Whether `first` and `second` are a round of the exploration: each
    /// fits on one side of the first of two stratified folds of the working
    /// rows, with settings from the combinations, and scores on the holdout.
    pub open spec fn is_exploration_round(&self, first: TrialView, second: TrialView) -> bool {
        exists|folds: Seq<(Vec<usize>, Vec<usize>)>| #[trigger]
            StratifiedKFold::deals_labels(self.working_labels(), 2, folds) && folds.len() == 2 && first.train
                == mapped(folds[0].0@, self.working()) && second.train == mapped(
                folds[0].1@,
                self.working(),
            ) && first.test == self.holdout() && second.test == self.holdout()
                && self.combinations().contains(first.hyperparameters) && self.combinations().contains(
                second.hyperparameters,
            )
    }

    /// The settings that the best candidate reports of itself.
    pub open spec fn best_settings(&self) -> Seq<(Seq<char>, String)> {
        self.candidates()[best_candidate(
            metrics_of(self.candidates()),
            self.candidates().len() as int,
        )].hyperparameters@
    }

    /// Whether `first` and `second` are a round of the cross-validation:
    /// they are the two stratified folds of the working rows, each fitted on
    /// its training rows with the settings of the best candidate and scored
    /// on its validation rows.
    pub open spec fn is_estimation_round(&self, first: TrialView, second: TrialView) -> bool {
        exists|folds: Seq<(Vec<usize>, Vec<usize>)>| #[trigger]
            StratifiedKFold::deals_labels(self.working_labels(), 2, folds) && folds.len() == 2 && first.train
                == mapped(folds[0].0@, self.working()) && first.test == mapped(
                folds[0].1@,
                self.working(),
            ) && second.train == mapped(folds[1].0@, self.working()) && second.test == mapped(
                folds[1].1@,
                self.working(),
            ) && first.hyperparameters == self.best_settings() && second.hyperparameters
                == self.best_settings()
    }

    /// Whether `first` and `second` are the round that starts at place
    /// `place` among the trials: a round of the exploration among the first
    /// ten trials, and one of the cross-validation behind them.
    pub open spec fn is_round_at(&self, place: int, first: TrialView, second: TrialView) -> bool {
        if place < EXPLORATION_TRIALS {
            self.is_exploration_round(first, second)
        } else {
            self.is_estimation_round(first, second)
        }
    }

    /// Whether the trials were handed out as the strategy lays down: one
    /// more than outcomes were taken, until all twenty are out; every two
    /// trials a round; and the trial that is planned as the next one the
    /// second of the round that the last trial started.
    pub open spec fn follows_protocol(&self) -> bool {
        &&& self.trials().len() == if self.is_finished() {
            (EXPLORATION_TRIALS + ESTIMATION_TRIALS) as nat
        } else {
            self.trials_done() + 1
        }
        &&& forall|i: int|
            #![trigger self.trials()[i]]
            0 <= i && i % 2 == 0 && i + 1 < self.trials().len() ==> self.is_round_at(
                i,
                self.trials()[i],
                self.trials()[i + 1],
            )
        &&& self.pending() is Some ==> self.is_round_at(
            self.trials().len() - 1,
            self.trials().last(),
            self.pending().unwrap(),
        )
    }

    /// Whether every outcome that the director has taken is what comes of
    /// the trial that it was handed out for: the candidates in full, and of
    /// the cross-validation the scores.
    pub open spec fn is_scored_on(
        &self,
        table: Seq<crate::data::column::Column<Numeric>>,
        label_index: usize,
        defaults: (int, usize, Numeric, bool),
        evaluator: Evaluator,
    ) -> bool {
        &&& forall|i: int|
            0 <= i < self.candidates().len() ==> is_scored(
                #[trigger] self.candidates()[i],
                table,
                label_index,
                self.trials()[i],
                defaults,
                evaluator,
            )
        &&& forall|i: int|
            0 <= i < self.metrics().len() ==> has_score(
                #[trigger] self.metrics()[i],
                table,
                label_index,
                self.trials()[EXPLORATION_TRIALS + i],
                defaults,
                evaluator,
            )
    }

    /// Whether the director has rows for every trial: the holdout is not
    /// empty, and a class has two of the working rows or more.
    pub open spec fn is_workable(&self) -> bool {
        &&& self.holdout().len() >= 1
        &&& exists|key: Numeric|
            (#[trigger] class_rows(self.working_labels(), key, self.working_labels().len() as int)).len()
                >= 2
    }

    /// A director that was carved from labels of which a class has five
    /// rows or more has rows for every trial.
    pub proof fn lemma_carved_workable(&self, labels: Seq<Numeric>, key: Numeric)
        requires
            self.is_carved_from(labels),
            labels.len() <= usize::MAX,
            class_rows(labels, key, labels.len() as int).len() >= HOLDOUT_FOLDS,
        ensures
            self.is_workable(),
    {
        let n = labels.len() as int;
        let k = HOLDOUT_FOLDS as int;
        let (folds, i) = choose|folds: Seq<(Vec<usize>, Vec<usize>)>, i: int|
            #![trigger StratifiedKFold::deals_labels(labels, HOLDOUT_FOLDS as int, folds), folds[i]]
            StratifiedKFold::deals_labels(labels, HOLDOUT_FOLDS as int, folds) && 0 <= i < HOLDOUT_FOLDS
                && folds.len() == HOLDOUT_FOLDS && self.working() == folds[i].0@ && self.holdout()
                == folds[i].1@ && self.working_labels() == labels_at(labels, self.working()) && rows_below(
                folds,
                labels.len(),
            );
        let shuffled = choose|shuffled: Seq<Seq<usize>>|
            StratifiedKFold::shuffles(shuffled, labels) && folds_view(folds) == #[trigger] stratified_folds(
                shuffled,
                k,
            );
        assert(folds_view(folds)[i] == (folds[i].0@, folds[i].1@));
        lemma_stratified_nonempty(shuffled, labels, k, i, key);
        let keys = class_keys(labels, n);
        lemma_class_keys(labels, n);
        lemma_class_rows(labels, key, n);
        let member = class_rows(labels, key, n)[0];
        assert(class_rows(labels, key, n).contains(member));
        assert(keys.contains(labels[member as int]));
        let g = choose|g: int| 0 <= g < keys.len() && keys[g] == key;
        assert(class_groups(labels, n)[g] == class_rows(labels, key, n));
        lemma_same_elements_of_groups(shuffled, labels, g);
        let len = shuffled[g].len() as int;
        lemma_group_bounds(len, k, i);
        let f = len / k;
        assert(f >= 1 && k * f <= len && (k - 1) * f == k * f - f && (k - 1) * f >= k - 1 && i * f + f == (i
            + 1) * f && 0 <= i * f) by (nonlinear_arith)
            requires
                len >= k,
                k >= 2,
                0 <= i,
                f == len / k,
        ;
        assert(group_training(shuffled[g], k, i).len() >= 2);
        assert(shuffled.take(shuffled.len() as int) == shuffled);
        lemma_class_count_training(shuffled, labels, k, i, g, shuffled.len() as int);
        let working = self.working();
        assert(working.take(working.len() as int) == working);
        lemma_class_rows_of_chosen(labels, working, key, working.len() as int);
        assert(self.working_labels().len() == working.len());
    }

    /// The trials of a round of a director that has rows for every trial
    /// are sound.
    pub proof fn lemma_round_sound(&self, place: int, first: TrialView, second: TrialView, labels: Seq<Numeric>)
        requires
            self.is_round_at(place, first, second),
            self.is_workable(),
            self.is_carved_from(labels),
            self.working().len() <= usize::MAX,
        ensures
            is_sound_trial(first, labels.len()),
            is_sound_trial(second, labels.len()),
    {
        let working = self.working();
        let chosen = self.working_labels();
        assert(chosen.len() == working.len());
        let key = choose|key: Numeric| (#[trigger] class_rows(chosen, key, chosen.len() as int)).len() >= 2;
        let folds = if place < EXPLORATION_TRIALS {
            choose|folds: Seq<(Vec<usize>, Vec<usize>)>| #[trigger]
                StratifiedKFold::deals_labels(self.working_labels(), 2, folds) && folds.len() == 2
                    && first.train == mapped(folds[0].0@, self.working()) && second.train == mapped(
                    folds[0].1@,
                    self.working(),
                ) && first.test == self.holdout() && second.test == self.holdout()
                    && self.combinations().contains(first.hyperparameters) && self.combinations().contains(
                    second.hyperparameters,
                )
        } else {
            choose|folds: Seq<(Vec<usize>, Vec<usize>)>| #[trigger]
                StratifiedKFold::deals_labels(self.working_labels(), 2, folds) && folds.len() == 2
                    && first.train == mapped(folds[0].0@, self.working()) && first.test == mapped(
                    folds[0].1@,
                    self.working(),
                ) && second.train == mapped(folds[1].0@, self.working()) && second.test == mapped(
                    folds[1].1@,
                    self.working(),
                ) && first.hyperparameters == self.best_settings() && second.hyperparameters
                    == self.best_settings()
        };
        let shuffled = choose|shuffled: Seq<Seq<usize>>|
            StratifiedKFold::shuffles(shuffled, chosen) && folds_view(folds) == #[trigger] stratified_folds(
                shuffled,
                2,
            );
        assert(folds_view(folds)[0] == (folds[0].0@, folds[0].1@));
        assert(folds_view(folds)[1] == (folds[1].0@, folds[1].1@));
        lemma_stratified_nonempty(shuffled, chosen, 2, 0, key);
        lemma_stratified_nonempty(shuffled, chosen, 2, 1, key);
        let (carved, at) = choose|carved: Seq<(Vec<usize>, Vec<usize>)>, at: int|
            #![trigger StratifiedKFold::deals_labels(labels, HOLDOUT_FOLDS as int, carved), carved[at]]
            StratifiedKFold::deals_labels(labels, HOLDOUT_FOLDS as int, carved) && 0 <= at < HOLDOUT_FOLDS
                && carved.len() == HOLDOUT_FOLDS && self.working() == carved[at].0@ && self.holdout()
                == carved[at].1@ && self.working_labels() == labels_at(labels, self.working()) && rows_below(
                carved,
                labels.len(),
            );
        assert forall|side: Seq<usize>, j: int|
            (side == folds[0].0@ || side == folds[0].1@ || side == folds[1].0@ || side == folds[1].1@) && 0
                <= j < side.len() implies #[trigger] mapped(side, working)[j] < labels.len() by {
            let fold = if side == folds[0].0@ || side == folds[0].1@ {
                0int
            } else {
                1int
            };
            assert(side.contains(side[j]));
            lemma_stratified_rows_below(shuffled, chosen, 2, fold, side[j]);
            assert(working[side[j] as int] < labels.len());
        }
        assert forall|j: int| 0 <= j < first.train.len() implies #[trigger] first.train[j] < labels.len() by {
            assert(mapped(folds[0].0@, working)[j] < labels.len());
        }
        assert forall|j: int| 0 <= j < second.train.len() implies #[trigger] second.train[j] < labels.len() by {
            if place < EXPLORATION_TRIALS {
                assert(mapped(folds[0].1@, working)[j] < labels.len());
            } else {
                assert(mapped(folds[1].0@, working)[j] < labels.len());
            }
        }
        assert forall|j: int| 0 <= j < first.test.len() implies #[trigger] first.test[j] < labels.len() by {
            if place >= EXPLORATION_TRIALS {
                assert(mapped(folds[0].1@, working)[j] < labels.len());
            }
        }
        assert forall|j: int| 0 <= j < second.test.len() implies #[trigger] second.test[j] < labels.len() by {
            if place >= EXPLORATION_TRIALS {
                assert(mapped(folds[1].1@, working)[j] < labels.len());
            }
        }
    }

    /// The trial that is out is sound, and the trainer can build with its
    /// settings, where the director has rows for every trial, the trainer
    /// can build with every combination, and every outcome taken so far
    /// comes of its trial.
    pub proof fn lemma_trial_ready(
        &self,
        table: Seq<crate::data::column::Column<Numeric>>,
        label_index: usize,
        labels: Seq<Numeric>,
        defaults: (int, usize, Numeric, bool),
        evaluator: Evaluator,
    )
        requires
            self.wf(),
            self.follows_protocol(),
            !self.is_finished(),
            self.is_carved_from(labels),
            self.is_workable(),
            self.working().len() <= usize::MAX,
            self.is_scored_on(table, label_index, defaults, evaluator),
            forall|c: int|
                0 <= c < self.combinations().len() ==> can_build_with(defaults, #[trigger] self.combinations()[c]),
        ensures
            is_sound_trial(self.trials().last(), labels.len()),
            can_build_with(defaults, self.trials().last().hyperparameters),
    {
        let handed = self.trials();
        let len = handed.len() as int;
        let trial = handed.last();
        let place = if len % 2 == 1 {
            len - 1
        } else {
            len - 2
        };
        if len % 2 == 1 {
            let second = self.pending().unwrap();
            assert(self.is_round_at(place, trial, second));
            self.lemma_round_sound(place, trial, second, labels);
        } else {
            assert(self.is_round_at(place, handed[place], handed[place + 1]));
            self.lemma_round_sound(place, handed[place], trial, labels);
        }
        if place < EXPLORATION_TRIALS {
            let at = choose|at: int|
                0 <= at < self.combinations().len() && self.combinations()[at] == trial.hyperparameters;
            assert(can_build_with(defaults, self.combinations()[at]));
        } else {
            assert(self.candidates().len() == EXPLORATION_TRIALS);
            let metrics = metrics_of(self.candidates());
            lemma_best_candidate(metrics, self.candidates().len() as int);
            let best = best_candidate(metrics, self.candidates().len() as int);
            assert(trial.hyperparameters == self.candidates()[best].hyperparameters@);
            lemma_scored_settings(
                self.candidates()[best],
                table,
                label_index,
                handed[best],
                defaults,
                evaluator,
            );
        }
    }

    /// Whether the k-by-2 strategy cannot fail on the table: the columns
    /// are equally long and hold the label column, a class has five rows
    /// or more, there is a combination to draw from, the answers asked for
    /// can be had here, and the trainer can build with every combination.
    pub open spec fn is_runnable(
        table: &DataFrame<Numeric>,
        label_column_idx: usize,
        combinations: Seq<Dictionary<String>>,
        defaults: (int, usize, Numeric, bool),
        task: Task,
    ) -> bool {
        &&& equal_lengths(table@)
        &&& label_column_idx < table@.len()
        &&& combinations.len() > 0
        &&& answers_with(task, defaults)
        &&& exists|key: Numeric|
            (#[trigger] class_rows(
                table@[label_column_idx as int]@,
                key,
                table@[label_column_idx as int]@.len() as int,
            )).len() >= HOLDOUT_FOLDS
        &&& forall|c: int| 0 <= c < combinations.len() ==> can_build_with(defaults, (#[trigger] combinations[c])@)
    }

    /// How many outcomes the director has taken.
    pub fn trials_taken(&self) -> (taken: usize)
        requires
            self.wf(),
        ensures
            taken == self.trials_done(),
    {
        self.candidates.len() + self.metrics.len()
    }

    /// Plans a round: two trials on fresh stratified halves of the working rows.
    fn plan_round(&self, rng: &mut StdRng) -> (round: (Trial, Trial))
        requires
            self.combinations@.len() > 0,
            self.working_labels@.len() == self.working@.len(),
            self.candidates@.len() <= EXPLORATION_TRIALS,
        ensures
            self.candidates@.len() < EXPLORATION_TRIALS ==> self.is_exploration_round(round.0@, round.1@),
            self.candidates@.len() == EXPLORATION_TRIALS ==> self.is_estimation_round(round.0@, round.1@),
    {
        let folds = stratified_rows(self.working_labels.as_slice(), 2, rng);
        proof {
            assert(rows_below(folds@, self.working@.len()));
            assert(forall|j: int| 0 <= j < folds@[0].0@.len() ==> folds@[0].0@[j] < self.working@.len());
            assert(forall|j: int| 0 <= j < folds@[1].0@.len() ==> folds@[1].0@[j] < self.working@.len());
        }
        if self.candidates.len() < EXPLORATION_TRIALS {
            let one = gen_below(self.combinations.len(), rng);
            let other = gen_below(self.combinations.len(), rng);
            let first = Trial {
                train: map_rows(&folds[0].0, &self.working),
                test: copy_rows(&self.holdout),
                hyperparameters: self.combinations[one].duplicate(),
            };
            let second = Trial {
                train: map_rows(&folds[0].1, &self.working),
                test: copy_rows(&self.holdout),
                hyperparameters: self.combinations[other].duplicate(),
            };
            proof {
                assert(self.combinations()[one as int] == first@.hyperparameters);
                assert(self.combinations()[other as int] == second@.hyperparameters);
                assert(StratifiedKFold::deals_labels(self.working_labels(), 2, folds@));
            }
            (first, second)
        } else {
            let best = select_best(&self.candidates);
            let first = Trial {
                train: map_rows(&folds[0].0, &self.working),
                test: map_rows(&folds[0].1, &self.working),
                hyperparameters: self.candidates[best].hyperparameters.duplicate(),
            };
            let second = Trial {
                train: map_rows(&folds[1].0, &self.working),
                test: map_rows(&folds[1].1, &self.working),
                hyperparameters: self.candidates[best].hyperparameters.duplicate(),
            };
            proof {
                assert(StratifiedKFold::deals_labels(self.working_labels(), 2, folds@));
            }
            (first, second)
        }
    }

    /// Carves the holdout out of the rows that carry `labels` and hands out
    /// the first trial of the exploration. Without a combination to draw
    /// from there is no candidate (`NoCandidates`).
    pub fn begin(labels: &[Numeric], combinations: Vec<Dictionary<String>>, rng: &mut StdRng) -> (begun: Result<
        (Kx2Folds, Trial),
        PipelineError,
    >)
        ensures
            begun is Err <==> combinations@.len() == 0,
            begun matches Err(error) ==> error == PipelineError::NoCandidates,
            begun is Ok ==> {
                let (director, trial) = begun.unwrap();
                &&& director.wf()
                &&& director.trials_done() == 0
                &&& director.is_carved_from(labels@)
                &&& director.combinations() == combinations_view(combinations@)
                &&& director.pending() is Some
                &&& director.is_exploration_round(trial@, director.pending().unwrap())
                &&& director.trials() == seq![trial@]
                &&& director.follows_protocol()
            },
    {
        if combinations.len() == 0 {
            return Err(PipelineError::NoCandidates);
        }
        let folds = stratified_rows(labels, HOLDOUT_FOLDS, rng);
        let places = row_numbers(HOLDOUT_FOLDS);
        let place = match choose_from(&places, rng) {
            Some(place) => place,
            None => {
                return Err(PipelineError::NoCandidates);
            },
        };
        proof {
            let at = choose|at: int| 0 <= at < places@.len() && places@[at] == place;
            assert(place == at);
            assert(rows_below(folds@, labels@.len()));
            assert(forall|j: int|
                0 <= j < folds@[place as int].0@.len() ==> folds@[place as int].0@[j] < labels@.len());
        }
        let working = copy_rows(&folds[place].0);
        let holdout = copy_rows(&folds[place].1);
        let working_labels = select_labels(labels, &working);
        let mut director = Kx2Folds {
            working,
            holdout,
            working_labels,
            combinations,
            candidates: Vec::new(),
            metrics: Vec::new(),
            pending: None,
            trials: Ghost(Seq::empty()),
        };
        let (first, second) = director.plan_round(rng);
        let ghost planned = director;
        director.pending = Some(second);
        let ghost handed = Seq::empty().push(first@);
        director.trials = Ghost(handed);
        proof {
            assert(planned.is_exploration_round(first@, second@));
            let halves = choose|halves: Seq<(Vec<usize>, Vec<usize>)>| #[trigger]
                StratifiedKFold::deals_labels(planned.working_labels(), 2, halves) && halves.len() == 2
                    && first@.train == mapped(halves[0].0@, planned.working()) && second@.train == mapped(
                    halves[0].1@,
                    planned.working(),
                ) && first@.test == planned.holdout() && second@.test == planned.holdout()
                    && planned.combinations().contains(first@.hyperparameters)
                    && planned.combinations().contains(second@.hyperparameters);
            assert(StratifiedKFold::deals_labels(director.working_labels(), 2, halves));
            assert(director.is_exploration_round(first@, second@));
            assert(director.wf());
            assert(director.trials_done() == 0);
            assert(director.combinations() == combinations_view(combinations@));
            assert(director.pending() == Some(second@));
            assert(StratifiedKFold::deals_labels(labels@, HOLDOUT_FOLDS as int, folds@) && 0 <= place
                < HOLDOUT_FOLDS && folds@.len() == HOLDOUT_FOLDS && director.working() == folds@[place as int].0@
                && director.holdout() == folds@[place as int].1@);
        }
        Ok((director, first))
    }

    /// Whether `result` is what a run of the k-by-2 strategy may end in:
    /// `InvalidParams` without the label column and `NoCandidates` without a
    /// combination; as a score, the mean of the ten scores of a director
    /// that has finished, all of whose outcomes come of the trials it handed
    /// out; as any other error, what stands in the way of the trial that
    /// was out; and an error rate between nothing and all.
    pub open spec fn is_result(
        table: &DataFrame<Numeric>,
        label_column_idx: usize,
        combinations: Seq<Dictionary<String>>,
        defaults: (int, usize, Numeric, bool),
        task: Task,
        evaluator: Evaluator,
        result: Result<Numeric, PipelineError>,
    ) -> bool {
        &&& (label_column_idx >= table@.len() ==> result == Err::<Numeric, PipelineError>(
            PipelineError::InvalidParams,
        ))
        &&& (label_column_idx < table@.len() && combinations.len() == 0 ==> result == Err::<
            Numeric,
            PipelineError,
        >(PipelineError::NoCandidates))
        &&& (Kx2Folds::is_runnable(table, label_column_idx, combinations, defaults, task) ==> result is Ok)
        &&& (result matches Ok(score) ==> exists|director: Kx2Folds|
                #![trigger director.is_finished()]
                director.is_finished() && director.wf() && director.is_carved_from(
                    table@[label_column_idx as int]@,
                ) && director.combinations() == combinations_view(combinations)
                    && director.follows_protocol() && director.is_scored_on(
                    table@,
                    label_column_idx,
                    defaults,
                    evaluator,
                ) && score == mean_of(director.metrics()) as Numeric)
        &&& (result matches Err(error) ==> (label_column_idx < table@.len() && combinations.len() > 0
                ==> exists|director: Kx2Folds|
                #![trigger director.follows_protocol()]
                director.follows_protocol() && !director.is_finished() && director.wf()
                    && director.is_carved_from(table@[label_column_idx as int]@) && director.combinations()
                    == combinations_view(combinations) && director.is_scored_on(
                    table@,
                    label_column_idx,
                    defaults,
                    evaluator,
                ) && is_fault_of(
                    error,
                    table@,
                    label_column_idx,
                    director.trials().last(),
                    defaults,
                    task,
                )))
        &&& (result is Ok && evaluator == Evaluator::ClassificationScore ==> 0 <= result.unwrap() <= NUMERIC_SCALE)
    }

    /// Goes through the k-by-2 strategy on `table`: carves the holdout,
    /// carries out the twenty trials of the director with `fit_and_score`, and
    /// returns the mean of the ten scores of the cross-validation. The first
    /// trial that fails ends the run with its error.
    ///
    /// A label column that the table does not have is `InvalidParams`.
    pub fn run(
        table: &DataFrame<Numeric>,
        label_column_idx: usize,
        combinations: Vec<Dictionary<String>>,
        builder: &mut ModelBuilder,
        task: Task,
        evaluator: Evaluator,
        rng: &mut StdRng,
    ) -> (result: Result<Numeric, PipelineError>)
        ensures
            final(builder).defaults() == old(builder).defaults(),
            Kx2Folds::is_result(
                table,
                label_column_idx,
                combinations@,
                old(builder).defaults(),
                task,
                evaluator,
                result,
            ),
    {
        let label_column = match table.get_column_idx(label_column_idx) {
            Some(column) => column,
            None => {
                return Err(PipelineError::InvalidParams);
            },
        };
        let ghost labels = label_column@;
        let ghost settings = combinations_view(combinations@);
        let ghost defaults = builder.defaults();
        let ghost runnable = Kx2Folds::is_runnable(table, label_column_idx, combinations@, defaults, task);
        let count = label_column.len();
        proof {
            if runnable {
                assert forall|c: int| 0 <= c < settings.len() implies can_build_with(
                    defaults,
                    #[trigger] settings[c],
                ) by {
                    assert(settings[c] == combinations@[c]@);
                }
            }
        }
        let (mut director, first) = match Kx2Folds::begin(label_column.values(), combinations, rng) {
            Ok(begun) => begun,
            Err(error) => {
                return Err(error);
            },
        };
        let bound = director.working.len();
        proof {
            if runnable {
                let key = choose|key: Numeric|
                    (#[trigger] class_rows(labels, key, labels.len() as int)).len() >= HOLDOUT_FOLDS;
                director.lemma_carved_workable(labels, key);
            }
        }
        let mut trial = first;
        loop
            invariant
                director.wf(),
                director.follows_protocol(),
                !director.is_finished(),
                director.working().len() <= usize::MAX,
                runnable ==> director.is_workable() && equal_lengths(table@) && answers_with(task, defaults),
                forall|c: int| 0 <= c < settings.len() ==> runnable ==> can_build_with(defaults, #[trigger] settings[c]),
                runnable == Kx2Folds::is_runnable(table, label_column_idx, combinations@, defaults, task),
                director.trials_done() < EXPLORATION_TRIALS + ESTIMATION_TRIALS,
                label_column_idx < table@.len(),
                labels == table@[label_column_idx as int]@,
                combinations@.len() > 0,
                settings == combinations_view(combinations@),
                defaults == old(builder).defaults(),
                director.is_carved_from(labels),
                director.combinations() == settings,
                director.is_scored_on(table@, label_column_idx, defaults, evaluator),
                trial@ == director.trials().last(),
                builder.defaults() == defaults,
                evaluator == Evaluator::ClassificationScore ==> forall|i: int|
                    0 <= i < director.metrics().len() ==> 0 <= #[trigger] director.metrics()[i] <= NUMERIC_SCALE,
            decreases EXPLORATION_TRIALS + ESTIMATION_TRIALS - director.trials_done(),
        {
            let outcome = match fit_and_score(table, label_column_idx, &trial, builder, task, evaluator) {
                Ok(outcome) => outcome,
                Err(error) => {
                    proof {
                        assert(trial_fault(table@, label_column_idx, trial@, *builder, task) == Some(error));
                        if runnable {
                            director.lemma_trial_ready(table@, label_column_idx, labels, defaults, evaluator);
                            assert(labels.len() == table@[0]@.len());
                            lemma_sound_trial(table@, label_column_idx, trial@, *builder, task);
                        }
                    }
                    return Err(error);
                },
            };
            let ghost scored = outcome;
            let ghost before = director;
            proof {
                assert(is_outcome_of(scored, table@, label_column_idx, trial@, *builder, evaluator));
                assert(is_scored(scored, table@, label_column_idx, trial@, defaults, evaluator));
            }
            let step = director.advance(outcome, rng);
            proof {
                lemma_workable_kept(before, director);
                assert(director.trials().take(before.trials().len() as int) =~= before.trials());
                lemma_scores_kept(before, director, scored, table@, label_column_idx, defaults, evaluator);
            }
            match step {
                Step::Fit(next) => {
                    trial = next;
                },
                Step::Done(score) => {
                    proof {
                        if evaluator == Evaluator::ClassificationScore {
                            lemma_mean_within(director.metrics(), NUMERIC_SCALE);
                        }
                        assert(director.is_finished());
                    }
                    return Ok(score);
                },
            }
        }
    }

    /// Takes the outcome of the trial that is out and says what is next.
    ///
    /// The first ten outcomes are those of the candidates; the ten after
    /// them are the scores of the cross-validation, and their mean is the
    /// result. Of every round the second trial is planned together with the
    /// first and handed out after it.
    pub fn advance(&mut self, outcome: Outcome, rng: &mut StdRng) -> (step: Step)
        requires
            old(self).wf(),
            old(self).follows_protocol(),
            !old(self).is_finished(),
        ensures
            final(self).wf(),
            final(self).follows_protocol(),
            step is Fit ==> final(self).trials() == old(self).trials().push(step->Fit_0@),
            step is Done ==> final(self).trials() == old(self).trials(),
            final(self).trials_done() == old(self).trials_done() + 1,
            final(self).trials_done() <= EXPLORATION_TRIALS + ESTIMATION_TRIALS,
            final(self).working() == old(self).working(),
            final(self).holdout() == old(self).holdout(),
            final(self).working_labels() == old(self).working_labels(),
            final(self).combinations() == old(self).combinations(),
            old(self).candidates().len() < EXPLORATION_TRIALS ==> final(self).candidates() == old(
                self,
            ).candidates().push(outcome) && final(self).metrics() == old(self).metrics(),
            old(self).candidates().len() >= EXPLORATION_TRIALS ==> final(self).candidates() == old(
                self,
            ).candidates() && final(self).metrics() == old(self).metrics().push(outcome.metric),
            final(self).is_finished() ==> step == Step::Done(mean_of(final(self).metrics()) as Numeric),
            !final(self).is_finished() ==> step is Fit,
            !final(self).is_finished() && old(self).pending() is Some ==> final(self).pending() is None
                && step->Fit_0@ == old(self).pending().unwrap(),
            !final(self).is_finished() && old(self).pending() is None ==> final(self).pending() is Some && (
            final(self).candidates().len() < EXPLORATION_TRIALS ==> final(self).is_exploration_round(
                step->Fit_0@,
                final(self).pending().unwrap(),
            )) && (final(self).candidates().len() >= EXPLORATION_TRIALS ==> final(self).is_estimation_round(
                step->Fit_0@,
                final(self).pending().unwrap(),
            )),
    {
        if self.candidates.len() < EXPLORATION_TRIALS {
            self.candidates.push(outcome);
        } else {
            self.metrics.push(outcome.metric);
        }
        if self.metrics.len() == ESTIMATION_TRIALS {
            proof {
                assert(old(self).candidates().len() == EXPLORATION_TRIALS);
                assert(self.trials().take(old(self).trials().len() as int) =~= old(self).trials());
                lemma_rounds_kept(*old(self), *self);
            }
            return Step::Done(mean(&self.metrics));
        }
        let ghost before = old(self).trials();
        match self.pending.take() {
            Some(trial) => {
                let ghost handed = before.push(trial@);
                self.trials = Ghost(handed);
                proof {
                    assert(old(self).is_round_at(before.len() - 1, before.last(), trial@));
                    assert(self.trials().take(before.len() as int) =~= before);
                    lemma_rounds_kept(*old(self), *self);
                }
                Step::Fit(trial)
            },
            None => {
                let (first, second) = self.plan_round(rng);
                let ghost planned = *self;
                self.pending = Some(second);
                let ghost handed = before.push(first@);
                self.trials = Ghost(handed);
                proof {
                    assert(planned.is_round_at(before.len() as int, first@, second@));
                    lemma_round_stable(planned, *self, before.len() as int, first@, second@);
                    assert(self.trials().last() == first@);
                    assert(self.trials().take(before.len() as int) =~= before);
                    lemma_rounds_kept(*old(self), *self);
                }
                Step::Fit(first)
            },
        }
    }
}

} // verus!

//! Partitioners: how the rows of a table are dealt into folds, each a pair of
//! the rows to train on and the rows to validate on.

pub mod cross_stratified;
pub mod kfold;
pub mod kfold_stratified;

use crate::data::data_frame::DataFrame;
use crate::dictionary::Dictionary;
use crate::types::{Numeric, PipelineError, NUMERIC_SCALE};
use crate::validation::kfold::KFold;
use crate::validation::kfold_stratified::StratifiedKFold;
use rand::rngs::StdRng;
use vstd::prelude::*;

verus! {

/// The row numbers `0, 1, .., n - 1` in rising order.
pub open spec fn range_seq(n: nat) -> Seq<usize> {
    Seq::new(n, |i: int| i as usize)
}

/// Whether `s` holds each of the row numbers below `n` once, in any order.
pub open spec fn is_arrangement(s: Seq<usize>, n: nat) -> bool {
    s.to_multiset() == range_seq(n).to_multiset()
}

/// A fold as a pair of sequences: the training rows, then the validation rows.
pub open spec fn fold_view(fold: (Vec<usize>, Vec<usize>)) -> (Seq<usize>, Seq<usize>) {
    (fold.0@, fold.1@)
}

/// The folds as pairs of sequences.
pub open spec fn folds_view(folds: Seq<(Vec<usize>, Vec<usize>)>) -> Seq<(Seq<usize>, Seq<usize>)> {
    folds.map_values(|fold: (Vec<usize>, Vec<usize>)| fold_view(fold))
}

/// The number of folds that the parameter `num_folds` asks for: its whole
/// part, and none for a negative number.
pub open spec fn fold_count(value: Numeric) -> nat {
    if value < 0 {
        0
    } else if value / NUMERIC_SCALE > usize::MAX {
        usize::MAX as nat
    } else {
        (value / NUMERIC_SCALE) as nat
    }
}

/// The number of folds asked for by `parameters`, if they name one.
pub open spec fn requested_folds(parameters: &Dictionary<Numeric>) -> Option<nat> {
    match parameters.lookup("num_folds"@) {
        Some(value) => Some(fold_count(value)),
        None => None,
    }
}

/// Reads the parameter `num_folds`.
pub fn read_fold_count(parameters: &Dictionary<Numeric>) -> (count: Option<usize>)
    ensures
        count is Some <==> requested_folds(parameters) is Some,
        count is Some ==> count.unwrap() == requested_folds(parameters).unwrap(),
{
    match parameters.get("num_folds") {
        Some(value) => {
            if *value < 0 {
                Some(0)
            } else {
                let whole: u64 = (*value / NUMERIC_SCALE) as u64;
                if whole > usize::MAX as u64 {
                    Some(usize::MAX)
                } else {
                    Some(whole as usize)
                }
            }
        },
        None => None,
    }
}

/// Puts the elements of `source` from position `from` up to `to` behind `target`.
pub fn append_range(target: &mut Vec<usize>, source: &Vec<usize>, from: usize, to: usize)
    requires
        from <= to <= source@.len(),
    ensures
        final(target)@ == old(target)@ + source@.subrange(from as int, to as int),
{
    let mut at: usize = from;
    while at < to
        invariant
            from <= at <= to <= source@.len(),
            target@ == old(target)@ + source@.subrange(from as int, at as int),
        decreases to - at,
    {
        target.push(source[at]);
        at = at + 1;
        assert(target@ =~= old(target)@ + source@.subrange(from as int, at as int));
    }
    assert(target@ =~= old(target)@ + source@.subrange(from as int, to as int));
}

/// Whether every row that the folds name is a row below `n`.
pub open spec fn rows_below(folds: Seq<(Vec<usize>, Vec<usize>)>, n: nat) -> bool {
    forall|i: int|
        0 <= i < folds.len() ==> (forall|j: int| 0 <= j < (#[trigger] folds[i]).0@.len() ==> folds[i].0@[j] < n)
            && (forall|j: int| 0 <= j < folds[i].1@.len() ==> folds[i].1@[j] < n)
}

/// The number of folds among the first `upto` that validate on `row`.
pub open spec fn folds_validating_on(folds: Seq<(Seq<usize>, Seq<usize>)>, row: usize, upto: int) -> int
    decreases upto,
{
    if upto <= 0 {
        0
    } else if folds[upto - 1].1.contains(row) {
        folds_validating_on(folds, row, upto - 1) + 1
    } else {
        folds_validating_on(folds, row, upto - 1)
    }
}

/// The number of folds among the first `upto` that train on `row`.
pub open spec fn folds_training_on(folds: Seq<(Seq<usize>, Seq<usize>)>, row: usize, upto: int) -> int
    decreases upto,
{
    if upto <= 0 {
        0
    } else if folds[upto - 1].0.contains(row) {
        folds_training_on(folds, row, upto - 1) + 1
    } else {
        folds_training_on(folds, row, upto - 1)
    }
}

/// Two sequences that hold the same elements equally often are equally long,
/// are both free of repeats or both not, and hold the same values.
pub proof fn lemma_same_elements(a: Seq<usize>, b: Seq<usize>)
    requires
        a.to_multiset() == b.to_multiset(),
    ensures
        a.len() == b.len(),
        a.no_duplicates() ==> b.no_duplicates(),
        forall|x: usize| a.contains(x) <==> b.contains(x),
{
    a.to_multiset_ensures();
    b.to_multiset_ensures();
    if a.no_duplicates() {
        a.lemma_multiset_has_no_duplicates();
        b.lemma_multiset_has_no_duplicates_conv();
    }
    assert forall|x: usize| a.contains(x) <==> b.contains(x) by {
        assert(a.contains(x) <==> a.to_multiset().count(x) > 0);
        assert(b.contains(x) <==> b.to_multiset().count(x) > 0);
    }
}

/// The row numbers below `n` in any order: each of them once, and nothing else.
pub proof fn lemma_arrangement(s: Seq<usize>, n: nat)
    requires
        is_arrangement(s, n),
        n <= usize::MAX,
    ensures
        s.len() == n,
        s.no_duplicates(),
        forall|x: usize| s.contains(x) <==> x < n,
{
    let rows = range_seq(n);
    assert(rows.no_duplicates());
    lemma_same_elements(rows, s);
    assert forall|x: usize| rows.contains(x) <==> x < n by {
        if x < n {
            assert(rows[x as int] == x);
        }
    }
}

/// In a sequence without repeats, a run holds a value exactly when the
/// place of the value lies in the run.
pub proof fn lemma_run_contains(s: Seq<usize>, position: int, from: int, to: int)
    requires
        s.no_duplicates(),
        0 <= position < s.len(),
        0 <= from <= to <= s.len(),
    ensures
        s.subrange(from, to).contains(s[position]) <==> from <= position < to,
        (s.subrange(0, from) + s.subrange(to, s.len() as int)).contains(s[position]) <==> !(from
            <= position < to),
{
    let run = s.subrange(from, to);
    let rest = s.subrange(0, from) + s.subrange(to, s.len() as int);
    if from <= position < to {
        assert(run[position - from] == s[position]);
    }
    if run.contains(s[position]) {
        let at = choose|at: int| 0 <= at < run.len() && run[at] == s[position];
        assert(s[at + from] == s[position]);
    }
    if position < from {
        assert(rest[position] == s[position]);
    }
    if position >= to {
        assert(rest[position - to + from] == s[position]);
    }
    if rest.contains(s[position]) {
        let at = choose|at: int| 0 <= at < rest.len() && rest[at] == s[position];
        if at < from {
            assert(s[at] == s[position]);
        } else {
            assert(s[at - from + to] == s[position]);
        }
    }
}

/// Folds whose validation runs follow one another from the first place to
/// the last: a value at `position` is validated on by one fold, the one whose
/// run holds the place, and trained on by all the others.
pub proof fn lemma_runs_tile(
    folds: Seq<(Seq<usize>, Seq<usize>)>,
    row: usize,
    position: int,
    bounds: Seq<int>,
    upto: int,
)
    requires
        0 <= upto < bounds.len(),
        bounds.len() <= folds.len() + 1,
        bounds[0] == 0,
        0 <= position,
        forall|i: int| 0 <= i < bounds.len() - 1 ==> #[trigger] bounds[i] <= bounds[i + 1],
        forall|i: int|
            0 <= i < bounds.len() - 1 ==> ((#[trigger] folds[i]).1.contains(row) <==> bounds[i] <= position
                < bounds[i + 1]),
        forall|i: int|
            0 <= i < bounds.len() - 1 ==> ((#[trigger] folds[i]).0.contains(row) <==> !(bounds[i]
                <= position < bounds[i + 1])),
    ensures
        folds_validating_on(folds, row, upto) == if position < bounds[upto] {
            1int
        } else {
            0int
        },
        folds_training_on(folds, row, upto) == upto - folds_validating_on(folds, row, upto),
    decreases upto,
{
    if upto > 0 {
        lemma_runs_tile(folds, row, position, bounds, upto - 1);
        assert(bounds[upto - 1] <= bounds[upto - 1 + 1]);
        let fold = folds[upto - 1];
        assert(fold.1.contains(row) <==> bounds[upto - 1] <= position < bounds[upto - 1 + 1]);
        assert(fold.0.contains(row) <==> !(bounds[upto - 1] <= position < bounds[upto - 1 + 1]));
    }
}

/// The ways of dealing rows into folds.
#[derive(Clone, Copy, Debug, PartialEq, Eq, Structural)]
pub enum Partitioner {
    KFold,
    StratifiedKFold,
}

impl Partitioner {
    /// Deals the rows of `table` into folds in the way that `self` names.
    pub fn partition(
        &self,
        table: &DataFrame<Numeric>,
        label_column_idx: usize,
        parameters: &Dictionary<Numeric>,
        rng: &mut StdRng,
    ) -> (folds: Result<Vec<(Vec<usize>, Vec<usize>)>, PipelineError>)
        ensures
            folds is Err ==> folds == Err::<Vec<(Vec<usize>, Vec<usize>)>, PipelineError>(
                PipelineError::InvalidParams,
            ),
            *self == Partitioner::KFold ==> (folds is Err <==> KFold::rejects(
                table,
                label_column_idx,
                parameters,
            )) && (folds is Ok ==> KFold::deals(table, label_column_idx, parameters, folds.unwrap()@)),
            *self == Partitioner::StratifiedKFold ==> (folds is Err <==> StratifiedKFold::rejects(
                table,
                label_column_idx,
                parameters,
            )) && (folds is Ok ==> StratifiedKFold::deals(
                table,
                label_column_idx,
                parameters,
                folds.unwrap()@,
            )),
    {
        match self {
            Partitioner::KFold => KFold::partition(table, label_column_idx, parameters, rng),
            Partitioner::StratifiedKFold => StratifiedKFold::partition(
                table,
                label_column_idx,
                parameters,
                rng,
            ),
        }
    }
}

/// The partitioner that `name` stands for, if it stands for one:
/// `stratified-kfold` or `kfold`.
pub open spec fn partitioner_named(name: Seq<char>) -> Option<Partitioner> {
    if name == "stratified-kfold"@ {
        Some(Partitioner::StratifiedKFold)
    } else if name == "kfold"@ {
        Some(Partitioner::KFold)
    } else {
        None
    }
}

/// The partitioner that goes by `partitioner`; a name that stands for none
/// is `NotFound`.
pub fn get_partitioner(partitioner: &str) -> (found: Result<Partitioner, PipelineError>)
    ensures
        found == match partitioner_named(partitioner@) {
            Some(named) => Ok::<Partitioner, PipelineError>(named),
            None => Err(PipelineError::NotFound),
        },
{
    let wanted = partitioner.to_owned();
    if wanted == "stratified-kfold".to_owned() {
        Ok(Partitioner::StratifiedKFold)
    } else if wanted == "kfold".to_owned() {
        Ok(Partitioner::KFold)
    } else {
        Err(PipelineError::NotFound)
    }
}

} // verus!

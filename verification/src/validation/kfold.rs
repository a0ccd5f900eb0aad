//! Plain k-fold: the shuffled rows are cut into `k` runs, and each run is the
//! validation set of one fold.

use crate::data::data_frame::DataFrame;
use crate::dictionary::Dictionary;
use crate::random::shuffle;
use crate::types::{Numeric, PipelineError};
use crate::validation::{
    append_range, fold_view, folds_training_on, folds_validating_on, folds_view, is_arrangement,
    lemma_arrangement, lemma_run_contains, lemma_runs_tile, range_seq, read_fold_count,
    requested_folds,
};
use rand::rngs::StdRng;
use vstd::prelude::*;

verus! {

/// The plain k-fold partitioner.
pub struct KFold;

/// The size of every fold but the last, of `n` rows in `k` folds.
pub open spec fn fold_size(n: int, k: int) -> int {
    n / k
}

/// The size of the last fold: a fold's size and what is left of the rows
/// when they are divided by that size.
pub open spec fn last_fold_size(n: int, k: int) -> int {
    fold_size(n, k) + n % fold_size(n, k)
}

/// Where the validation run of fold `i` starts in the shuffled rows.
pub open spec fn validation_start(n: int, k: int, i: int) -> int {
    if i < k - 1 {
        i * fold_size(n, k)
    } else {
        n - last_fold_size(n, k)
    }
}

/// Where the validation run of fold `i` ends in the shuffled rows.
pub open spec fn validation_end(n: int, k: int, i: int) -> int {
    if i < k - 1 {
        (i + 1) * fold_size(n, k)
    } else {
        n
    }
}

/// Fold `i` of the shuffled rows `s`: the validation rows are a run of `s`;
/// the training rows are what stands before the run and, in every fold but
/// the last, what stands behind it.
pub open spec fn kfold_fold(s: Seq<usize>, k: int, i: int) -> (Seq<usize>, Seq<usize>) {
    let n = s.len() as int;
    let start = validation_start(n, k, i);
    let end = validation_end(n, k, i);
    (s.subrange(0, start) + s.subrange(end, n), s.subrange(start, end))
}

/// The `k` folds of the shuffled rows `s`.
pub open spec fn kfold_folds(s: Seq<usize>, k: int) -> Seq<(Seq<usize>, Seq<usize>)> {
    Seq::new(k as nat, |i: int| kfold_fold(s, k, i))
}

/// Each run of a fold lies within the rows.
pub proof fn lemma_fold_bounds(n: int, k: int, i: int)
    requires
        2 <= k <= n,
        0 <= i < k,
    ensures
        fold_size(n, k) >= 1,
        0 <= validation_start(n, k, i) <= validation_end(n, k, i) <= n,
        i < k - 1 ==> validation_end(n, k, i) == validation_start(n, k, i) + fold_size(n, k),
{
    let f = n / k;
    assert(f >= 1 && k * f <= n && 2 * f <= n) by (nonlinear_arith)
        requires
            2 <= k <= n,
            f == n / k,
    ;
    assert(0 <= n % f < f);
    if i < k - 1 {
        assert(0 <= i * f && (i + 1) * f <= k * f && (i + 1) * f == i * f + f) by (nonlinear_arith)
            requires
                0 <= i < k - 1,
                f >= 1,
        ;
    }
}

/// Whether the last fold takes up all the rows that the folds before it
/// leave: what is left of `n` when divided by the fold's size is what is left
/// of it when divided by `k`.
pub open spec fn last_fold_fills(n: int, k: int) -> bool {
    n % fold_size(n, k) == n % k
}

/// Plain folds cover the rows: where the last fold takes up all that is left,
/// every row is validated on by exactly one fold and trained on by all the
/// other folds, every fold either trains or validates on it, and no fold
/// holds anything but rows of the table.
pub proof fn lemma_kfold_covers(shuffled: Seq<usize>, k: int, row: usize)
    requires
        is_arrangement(shuffled, shuffled.len()),
        2 <= k <= shuffled.len(),
        shuffled.len() <= usize::MAX,
        last_fold_fills(shuffled.len() as int, k),
        row < shuffled.len(),
    ensures
        folds_validating_on(kfold_folds(shuffled, k), row, k) == 1,
        folds_training_on(kfold_folds(shuffled, k), row, k) == k - 1,
        forall|i: int|
            0 <= i < k ==> ((#[trigger] kfold_folds(shuffled, k)[i]).0.contains(row) <==> !kfold_folds(
                shuffled,
                k,
            )[i].1.contains(row)),
        forall|i: int, x: usize|
            0 <= i < k && (kfold_folds(shuffled, k)[i].0.contains(x) || kfold_folds(
                shuffled,
                k,
            )[i].1.contains(x)) ==> x < shuffled.len(),
{
    let n = shuffled.len() as int;
    let folds = kfold_folds(shuffled, k);
    lemma_arrangement(shuffled, shuffled.len());
    assert(shuffled.contains(row));
    let position = choose|at: int| 0 <= at < n && shuffled[at] == row;
    let bounds = Seq::new((k + 1) as nat, |i: int| if i < k { validation_start(n, k, i) } else { n });
    let f = fold_size(n, k);
    assert(k * f + n % k == n) by (nonlinear_arith)
        requires
            k >= 2,
            n >= 0,
            f == n / k,
    ;
    assert((k - 1) * f == k * f - f) by (nonlinear_arith);
    assert forall|i: int| 0 <= i < k implies validation_end(n, k, i) == #[trigger] bounds[i + 1] && bounds[i]
        == validation_start(n, k, i) by {
        lemma_fold_bounds(n, k, i);
        if i + 1 < k - 1 {
        } else if i + 1 == k - 1 {
            assert((i + 1) * f == (k - 1) * f);
        }
    }
    assert forall|i: int| 0 <= i < bounds.len() - 1 implies #[trigger] bounds[i] <= bounds[i + 1] by {
        lemma_fold_bounds(n, k, i);
    }
    assert forall|i: int| 0 <= i < bounds.len() - 1 implies ((#[trigger] folds[i]).1.contains(row) <==> bounds[i]
        <= position < bounds[i + 1]) && (folds[i].0.contains(row) <==> !(bounds[i] <= position
        < bounds[i + 1])) by {
        lemma_fold_bounds(n, k, i);
        lemma_run_contains(shuffled, position, validation_start(n, k, i), validation_end(n, k, i));
    }
    lemma_fold_bounds(n, k, 0);
    lemma_runs_tile(folds, row, position, bounds, k);
    assert forall|i: int, x: usize|
        0 <= i < k && (folds[i].0.contains(x) || folds[i].1.contains(x)) implies x < shuffled.len() by {
        lemma_fold_bounds(n, k, i);
        if folds[i].1.contains(x) {
            let at = choose|at: int| 0 <= at < folds[i].1.len() && folds[i].1[at] == x;
            assert(shuffled[at + validation_start(n, k, i)] == x);
            assert(shuffled.contains(x));
        } else {
            let at = choose|at: int| 0 <= at < folds[i].0.len() && folds[i].0[at] == x;
            if at < validation_start(n, k, i) {
                assert(shuffled[at] == x);
            } else {
                assert(shuffled[at - validation_start(n, k, i) + validation_end(n, k, i)] == x);
            }
            assert(shuffled.contains(x));
        }
    }
}

/// With a row for each fold, every plain fold has rows to train on and
/// rows to validate on, and all of them are rows of the table.
pub proof fn lemma_kfold_nonempty(shuffled: Seq<usize>, k: int, i: int)
    requires
        is_arrangement(shuffled, shuffled.len()),
        2 <= k <= shuffled.len() <= usize::MAX,
        0 <= i < k,
    ensures
        kfold_fold(shuffled, k, i).0.len() >= 1,
        kfold_fold(shuffled, k, i).1.len() >= 1,
        forall|j: int|
            0 <= j < kfold_fold(shuffled, k, i).0.len() ==> #[trigger] kfold_fold(shuffled, k, i).0[j]
                < shuffled.len(),
        forall|j: int|
            0 <= j < kfold_fold(shuffled, k, i).1.len() ==> #[trigger] kfold_fold(shuffled, k, i).1[j]
                < shuffled.len(),
{
    let n = shuffled.len() as int;
    let f = fold_size(n, k);
    lemma_fold_bounds(n, k, i);
    lemma_arrangement(shuffled, shuffled.len());
    assert(f >= 1 && 2 * f <= n && k * f <= n) by (nonlinear_arith)
        requires
            2 <= k <= n,
            f == n / k,
    ;
    assert(0 <= n % f < f);
    if i < k - 1 {
        assert((i + 1) * f == i * f + f) by (nonlinear_arith);
    }
    let start = validation_start(n, k, i);
    let end = validation_end(n, k, i);
    let fold = kfold_fold(shuffled, k, i);
    assert forall|j: int| 0 <= j < fold.0.len() implies #[trigger] fold.0[j] < shuffled.len() by {
        if j < start {
            assert(shuffled[j] == fold.0[j]);
        } else {
            assert(shuffled[j - start + end] == fold.0[j]);
        }
        assert(shuffled.contains(fold.0[j]));
    }
    assert forall|j: int| 0 <= j < fold.1.len() implies #[trigger] fold.1[j] < shuffled.len() by {
        assert(shuffled[j + start] == fold.1[j]);
        assert(shuffled.contains(fold.1[j]));
    }
}

/// Cuts `indexes` into `k` folds.
pub fn kfold_split(indexes: &Vec<usize>, k: usize) -> (folds: Vec<(Vec<usize>, Vec<usize>)>)
    requires
        2 <= k <= indexes@.len(),
    ensures
        folds_view(folds@) == kfold_folds(indexes@, k as int),
{
    let n = indexes.len();
    let size = n / k;
    let mut folds: Vec<(Vec<usize>, Vec<usize>)> = Vec::new();
    let mut i: usize = 0;
    while i < k - 1
        invariant
            2 <= k <= n,
            n == indexes@.len(),
            size == fold_size(n as int, k as int),
            i <= k - 1,
            folds@.len() == i,
            forall|j: int| 0 <= j < i ==> fold_view(#[trigger] folds@[j]) == kfold_fold(indexes@, k as int, j),
        decreases k - 1 - i,
    {
        proof {
            lemma_fold_bounds(n as int, k as int, i as int);
            assert(i * size == validation_start(n as int, k as int, i as int));
        }
        let start = i * size;
        let end = start + size;
        let mut train: Vec<usize> = Vec::new();
        append_range(&mut train, indexes, 0, start);
        append_range(&mut train, indexes, end, n);
        let mut validation: Vec<usize> = Vec::new();
        append_range(&mut validation, indexes, start, end);
        proof {
            assert(train@ =~= kfold_fold(indexes@, k as int, i as int).0);
            assert(validation@ =~= kfold_fold(indexes@, k as int, i as int).1);
        }
        folds.push((train, validation));
        i = i + 1;
    }
    proof {
        lemma_fold_bounds(n as int, k as int, k - 1);
    }
    let last = size + n % size;
    let start = n - last;
    let mut train: Vec<usize> = Vec::new();
    append_range(&mut train, indexes, 0, start);
    let mut validation: Vec<usize> = Vec::new();
    append_range(&mut validation, indexes, start, n);
    proof {
        assert(train@ =~= kfold_fold(indexes@, k as int, k - 1).0);
        assert(validation@ =~= kfold_fold(indexes@, k as int, k - 1).1);
    }
    folds.push((train, validation));
    proof {
        assert(folds_view(folds@) =~= kfold_folds(indexes@, k as int));
    }
    folds
}

/// The row numbers below `n`, in rising order.
pub fn row_numbers(n: usize) -> (rows: Vec<usize>)
    ensures
        rows@ == range_seq(n as nat),
{
    let mut rows: Vec<usize> = Vec::new();
    let mut i: usize = 0;
    while i < n
        invariant
            i <= n,
            rows@ == range_seq(i as nat),
        decreases n - i,
    {
        rows.push(i);
        i = i + 1;
        assert(rows@ =~= range_seq(i as nat));
    }
    rows
}

impl KFold {
    /// Whether the plain partitioner turns the request down: the label column
    /// is not in the table, no number of folds is given, fewer than two folds
    /// are asked for, or the rows do not fill a fold each.
    pub open spec fn rejects(
        table: &DataFrame<Numeric>,
        label_column_idx: usize,
        parameters: &Dictionary<Numeric>,
    ) -> bool {
        ||| label_column_idx >= table@.len()
        ||| requested_folds(parameters) is None
        ||| requested_folds(parameters).unwrap() < 2
        ||| table@[label_column_idx as int]@.len() < requested_folds(parameters).unwrap()
    }

    /// Whether `folds` are the plain folds of the rows of `table` in some order.
    pub open spec fn deals(
        table: &DataFrame<Numeric>,
        label_column_idx: usize,
        parameters: &Dictionary<Numeric>,
        folds: Seq<(Vec<usize>, Vec<usize>)>,
    ) -> bool {
        exists|shuffled: Seq<usize>|
            is_arrangement(shuffled, table@[label_column_idx as int]@.len()) && folds_view(folds)
                == #[trigger] kfold_folds(shuffled, requested_folds(parameters).unwrap() as int)
    }

    /// Deals the rows of `table` into as many folds as `num_folds` says.
    ///
    /// The rows are shuffled with `rng` and cut by `kfold_split`.
    pub fn partition(
        table: &DataFrame<Numeric>,
        label_column_idx: usize,
        parameters: &Dictionary<Numeric>,
        rng: &mut StdRng,
    ) -> (folds: Result<Vec<(Vec<usize>, Vec<usize>)>, PipelineError>)
        ensures
            folds is Err <==> Self::rejects(table, label_column_idx, parameters),
            folds is Err ==> folds == Err::<Vec<(Vec<usize>, Vec<usize>)>, PipelineError>(
                PipelineError::InvalidParams,
            ),
            folds is Ok ==> Self::deals(table, label_column_idx, parameters, folds.unwrap()@),
    {
        let label_column = match table.get_column_idx(label_column_idx) {
            Some(column) => column,
            None => {
                return Err(PipelineError::InvalidParams);
            },
        };
        let k = match read_fold_count(parameters) {
            Some(k) => k,
            None => {
                return Err(PipelineError::InvalidParams);
            },
        };
        let num_samples = label_column.len();
        if k < 2 || num_samples < k {
            return Err(PipelineError::InvalidParams);
        }
        let mut indexes = row_numbers(num_samples);
        shuffle(&mut indexes, rng);
        proof {
            indexes@.to_multiset_ensures();
            range_seq(num_samples as nat).to_multiset_ensures();
        }
        let folds = kfold_split(&indexes, k);
        assert(folds_view(folds@) == kfold_folds(indexes@, requested_folds(parameters).unwrap() as int));
        Ok(folds)
    }
}

} // verus!

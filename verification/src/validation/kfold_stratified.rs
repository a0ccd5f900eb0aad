//! Stratified k-fold: the rows are grouped by class, every group is shuffled
//! and cut into `k` runs of its own, and fold `i` validates on run `i` of
//! every group.

use crate::data::data_frame::DataFrame;
use crate::dictionary::Dictionary;
use crate::random::shuffle;
use crate::types::{Numeric, PipelineError};
use crate::validation::{
    append_range, fold_view, folds_training_on, folds_validating_on, folds_view, lemma_run_contains,
    lemma_runs_tile, lemma_same_elements, read_fold_count, requested_folds, rows_below,
};
use rand::rngs::StdRng;
use vstd::prelude::*;

verus! {

/// The stratified k-fold partitioner.
pub struct StratifiedKFold;

/// The class keys among the first `upto` labels, each once, in the order in
/// which they first occur.
pub open spec fn class_keys(labels: Seq<Numeric>, upto: int) -> Seq<Numeric>
    decreases upto,
{
    if upto <= 0 {
        Seq::empty()
    } else if class_keys(labels, upto - 1).contains(labels[upto - 1]) {
        class_keys(labels, upto - 1)
    } else {
        class_keys(labels, upto - 1).push(labels[upto - 1])
    }
}

/// The rows among the first `upto` whose label is `key`, in rising order.
pub open spec fn class_rows(labels: Seq<Numeric>, key: Numeric, upto: int) -> Seq<usize>
    decreases upto,
{
    if upto <= 0 {
        Seq::empty()
    } else if labels[upto - 1] == key {
        class_rows(labels, key, upto - 1).push((upto - 1) as usize)
    } else {
        class_rows(labels, key, upto - 1)
    }
}

/// The rows of the first `upto` labels, grouped by class: one group for each
/// class key, in the order of `class_keys`.
pub open spec fn class_groups(labels: Seq<Numeric>, upto: int) -> Seq<Seq<usize>> {
    Seq::new(
        class_keys(labels, upto).len(),
        |j: int| class_rows(labels, class_keys(labels, upto)[j], upto),
    )
}

/// The groups as sequences.
pub open spec fn groups_view(groups: Seq<Vec<usize>>) -> Seq<Seq<usize>> {
    groups.map_values(|group: Vec<usize>| group@)
}

/// Where the validation run of fold `i` starts in a group of `len` rows.
pub open spec fn group_start(len: int, k: int, i: int) -> int {
    i * (len / k)
}

/// Where the validation run of fold `i` ends in a group of `len` rows: the
/// last fold takes all that is left of the group.
pub open spec fn group_end(len: int, k: int, i: int) -> int {
    if i < k - 1 {
        (i + 1) * (len / k)
    } else {
        len
    }
}

/// The rows of `group` that fold `i` validates on.
pub open spec fn group_validation(group: Seq<usize>, k: int, i: int) -> Seq<usize> {
    group.subrange(group_start(group.len() as int, k, i), group_end(group.len() as int, k, i))
}

/// The rows of `group` that fold `i` trains on.
pub open spec fn group_training(group: Seq<usize>, k: int, i: int) -> Seq<usize> {
    group.subrange(0, group_start(group.len() as int, k, i)) + group.subrange(
        group_end(group.len() as int, k, i),
        group.len() as int,
    )
}

/// The validation rows of fold `i`: those of each group, one group after the other.
pub open spec fn stratified_validation(groups: Seq<Seq<usize>>, k: int, i: int) -> Seq<usize>
    decreases groups.len(),
{
    if groups.len() == 0 {
        Seq::empty()
    } else {
        stratified_validation(groups.drop_last(), k, i) + group_validation(groups.last(), k, i)
    }
}

/// The training rows of fold `i`: those of each group, one group after the other.
pub open spec fn stratified_training(groups: Seq<Seq<usize>>, k: int, i: int) -> Seq<usize>
    decreases groups.len(),
{
    if groups.len() == 0 {
        Seq::empty()
    } else {
        stratified_training(groups.drop_last(), k, i) + group_training(groups.last(), k, i)
    }
}

/// The `k` folds of the shuffled groups.
pub open spec fn stratified_folds(groups: Seq<Seq<usize>>, k: int) -> Seq<(Seq<usize>, Seq<usize>)> {
    Seq::new(
        k as nat,
        |i: int| (stratified_training(groups, k, i), stratified_validation(groups, k, i)),
    )
}

/// Each run of a group lies within the group.
pub proof fn lemma_group_bounds(len: int, k: int, i: int)
    requires
        2 <= k,
        0 <= len,
        0 <= i < k,
    ensures
        0 <= group_start(len, k, i) <= group_end(len, k, i) <= len,
        i < k - 1 ==> group_end(len, k, i) == group_start(len, k, i) + len / k,
        i < k - 1 ==> group_end(len, k, i) == group_start(len, k, i + 1),
        group_start(len, k, 0) == 0,
{
    let f = len / k;
    assert(f >= 0 && k * f <= len) by (nonlinear_arith)
        requires
            2 <= k,
            0 <= len,
            f == len / k,
    ;
    assert(0 <= i * f && i * f <= (k - 1) * f && (k - 1) * f <= k * f && (i + 1) * f == i * f + f
        && (i < k - 1 ==> (i + 1) * f <= (k - 1) * f)) by (nonlinear_arith)
        requires
            0 <= i < k,
            f >= 0,
    ;
}

/// Groups the rows by the class key of their label.
pub fn group_by_class(labels: &[Numeric]) -> (groups: Vec<Vec<usize>>)
    ensures
        groups_view(groups@) == class_groups(labels@, labels@.len() as int),
{
    let mut keys: Vec<Numeric> = Vec::new();
    let mut groups: Vec<Vec<usize>> = Vec::new();
    let mut row: usize = 0;
    while row < labels.len()
        invariant
            row <= labels@.len(),
            keys@ == class_keys(labels@, row as int),
            keys@.no_duplicates(),
            groups@.len() == keys@.len(),
            forall|j: int|
                0 <= j < groups@.len() ==> (#[trigger] groups@[j])@ == class_rows(labels@, keys@[j], row as int),
        decreases labels@.len() - row,
    {
        let key = labels[row];
        let mut at: usize = 0;
        while at < keys.len() && keys[at] != key
            invariant
                at <= keys@.len(),
                forall|j: int| 0 <= j < at ==> keys@[j] != key,
            decreases keys@.len() - at,
        {
            at = at + 1;
        }
        if at < keys.len() {
            assert(keys@.contains(key));
            let ghost before = groups@;
            groups[at].push(row);
            assert forall|j: int| 0 <= j < groups@.len() implies (#[trigger] groups@[j])@ == class_rows(
                labels@,
                keys@[j],
                row + 1,
            ) by {
                assert(before[j]@ == class_rows(labels@, keys@[j], row as int));
            }
        } else {
            assert(!keys@.contains(key));
            let ghost before = groups@;
            let mut group: Vec<usize> = Vec::new();
            group.push(row);
            keys.push(key);
            groups.push(group);
            proof {
                lemma_class_rows_fresh(labels@, key, row as int);
            }
            assert forall|j: int| 0 <= j < groups@.len() implies (#[trigger] groups@[j])@ == class_rows(
                labels@,
                keys@[j],
                row + 1,
            ) by {
                if j < before.len() {
                    assert(before[j]@ == class_rows(labels@, keys@[j], row as int));
                }
            }
        }
        row = row + 1;
    }
    proof {
        assert(groups_view(groups@) =~= class_groups(labels@, labels@.len() as int));
    }
    groups
}

/// A key that is not among the class keys of the first `upto` labels has no rows there.
pub proof fn lemma_class_rows_fresh(labels: Seq<Numeric>, key: Numeric, upto: int)
    requires
        0 <= upto <= labels.len(),
        !class_keys(labels, upto).contains(key),
    ensures
        class_rows(labels, key, upto) == Seq::<usize>::empty(),
    decreases upto,
{
    if upto > 0 {
        let before = class_keys(labels, upto - 1);
        if before.contains(labels[upto - 1]) {
            assert(labels[upto - 1] != key);
        } else {
            assert(before.push(labels[upto - 1]).last() == labels[upto - 1]);
            assert(labels[upto - 1] != key);
            if before.contains(key) {
                let at = choose|at: int| 0 <= at < before.len() && before[at] == key;
                assert(before.push(labels[upto - 1])[at] == key);
            }
        }
        lemma_class_rows_fresh(labels, key, upto - 1);
    }
}

/// The rows of a class are the rows with its key, each once.
pub proof fn lemma_class_rows(labels: Seq<Numeric>, key: Numeric, upto: int)
    requires
        0 <= upto <= labels.len() <= usize::MAX,
    ensures
        class_rows(labels, key, upto).no_duplicates(),
        forall|x: usize|
            #![trigger class_rows(labels, key, upto).contains(x)]
            class_rows(labels, key, upto).contains(x) <==> (x < upto && labels[x as int] == key),
    decreases upto,
{
    if upto > 0 {
        lemma_class_rows(labels, key, upto - 1);
        let before = class_rows(labels, key, upto - 1);
        let rows = class_rows(labels, key, upto);
        if labels[upto - 1] == key {
            assert forall|x: usize| x < upto && labels[x as int] == key implies rows.contains(x) by {
                if x == upto - 1 {
                    assert(rows[rows.len() - 1] == x);
                } else {
                    assert(before.contains(x));
                    let at = choose|at: int| 0 <= at < before.len() && before[at] == x;
                    assert(rows[at] == x);
                }
            }
            assert forall|x: usize| rows.contains(x) implies x < upto && labels[x as int] == key by {
                let at = choose|at: int| 0 <= at < rows.len() && rows[at] == x;
                if at < before.len() {
                    assert(before[at] == x);
                    assert(before.contains(x));
                }
            }
            assert forall|a: int, b: int| 0 <= a < rows.len() && 0 <= b < rows.len() && a != b implies rows[a]
                != rows[b] by {
                if a < before.len() {
                    assert(before.contains(before[a]));
                }
                if b < before.len() {
                    assert(before.contains(before[b]));
                }
            }
        }
    }
}

/// The class keys hold the label of every row, each key once.
pub proof fn lemma_class_keys(labels: Seq<Numeric>, upto: int)
    requires
        0 <= upto <= labels.len(),
    ensures
        class_keys(labels, upto).no_duplicates(),
        forall|x: int| 0 <= x < upto ==> class_keys(labels, upto).contains(#[trigger] labels[x]),
    decreases upto,
{
    if upto > 0 {
        lemma_class_keys(labels, upto - 1);
        let before = class_keys(labels, upto - 1);
        let keys = class_keys(labels, upto);
        assert forall|x: int| 0 <= x < upto implies keys.contains(#[trigger] labels[x]) by {
            if x < upto - 1 {
                assert(before.contains(labels[x]));
                let at = choose|at: int| 0 <= at < before.len() && before[at] == labels[x];
                assert(keys[at] == labels[x]);
            } else if !before.contains(labels[upto - 1]) {
                assert(keys[keys.len() - 1] == labels[x]);
            }
        }
    }
}

/// A fold holds a row exactly when its share of one of the groups holds it.
pub proof fn lemma_stratified_contains(groups: Seq<Seq<usize>>, k: int, i: int, row: usize)
    ensures
        stratified_validation(groups, k, i).contains(row) <==> exists|g: int|
            0 <= g < groups.len() && group_validation(#[trigger] groups[g], k, i).contains(row),
        stratified_training(groups, k, i).contains(row) <==> exists|g: int|
            0 <= g < groups.len() && group_training(#[trigger] groups[g], k, i).contains(row),
    decreases groups.len(),
{
    if groups.len() > 0 {
        let front = groups.drop_last();
        lemma_stratified_contains(front, k, i, row);
        lemma_concat_contains(stratified_validation(front, k, i), group_validation(groups.last(), k, i), row);
        lemma_concat_contains(stratified_training(front, k, i), group_training(groups.last(), k, i), row);
        if exists|g: int| 0 <= g < front.len() && group_validation(#[trigger] front[g], k, i).contains(row) {
            let g = choose|g: int| 0 <= g < front.len() && group_validation(#[trigger] front[g], k, i).contains(row);
            assert(groups[g] == front[g]);
        }
        if exists|g: int| 0 <= g < front.len() && group_training(#[trigger] front[g], k, i).contains(row) {
            let g = choose|g: int| 0 <= g < front.len() && group_training(#[trigger] front[g], k, i).contains(row);
            assert(groups[g] == front[g]);
        }
        if exists|g: int| 0 <= g < groups.len() && group_validation(#[trigger] groups[g], k, i).contains(row) {
            let g = choose|g: int| 0 <= g < groups.len() && group_validation(#[trigger] groups[g], k, i).contains(row);
            if g < front.len() {
                assert(groups[g] == front[g]);
            }
        }
        if exists|g: int| 0 <= g < groups.len() && group_training(#[trigger] groups[g], k, i).contains(row) {
            let g = choose|g: int| 0 <= g < groups.len() && group_training(#[trigger] groups[g], k, i).contains(row);
            if g < front.len() {
                assert(groups[g] == front[g]);
            }
        }
    }
}

/// Two sequences set one behind the other hold what either holds.
pub proof fn lemma_concat_contains(a: Seq<usize>, b: Seq<usize>, x: usize)
    ensures
        (a + b).contains(x) <==> a.contains(x) || b.contains(x),
{
    if a.contains(x) {
        let at = choose|at: int| 0 <= at < a.len() && a[at] == x;
        assert((a + b)[at] == x);
    }
    if b.contains(x) {
        let at = choose|at: int| 0 <= at < b.len() && b[at] == x;
        assert((a + b)[a.len() + at] == x);
    }
    if (a + b).contains(x) {
        let at = choose|at: int| 0 <= at < (a + b).len() && (a + b)[at] == x;
        if at < a.len() {
            assert(a[at] == x);
        } else {
            assert(b[at - a.len()] == x);
        }
    }
}

/// What a fold takes of a group, to train or to validate on, is in the group.
pub proof fn lemma_share_in_group(group: Seq<usize>, k: int, i: int, row: usize)
    requires
        2 <= k,
        0 <= i < k,
    ensures
        group_validation(group, k, i).contains(row) ==> group.contains(row),
        group_training(group, k, i).contains(row) ==> group.contains(row),
{
    let len = group.len() as int;
    lemma_group_bounds(len, k, i);
    let start = group_start(len, k, i);
    let end = group_end(len, k, i);
    if group_validation(group, k, i).contains(row) {
        let run = group_validation(group, k, i);
        let at = choose|at: int| 0 <= at < run.len() && run[at] == row;
        assert(group[at + start] == row);
    }
    if group_training(group, k, i).contains(row) {
        let rest = group_training(group, k, i);
        let at = choose|at: int| 0 <= at < rest.len() && rest[at] == row;
        if at < start {
            assert(group[at] == row);
        } else {
            assert(group[at - start + end] == row);
        }
    }
}

/// Stratified folds cover the rows: every row is validated on by exactly one
/// fold and trained on by all the other folds, and every fold either trains
/// or validates on it.
pub proof fn lemma_stratified_covers(shuffled: Seq<Seq<usize>>, labels: Seq<Numeric>, k: int, row: usize)
    requires
        StratifiedKFold::shuffles(shuffled, labels),
        labels.len() <= usize::MAX,
        2 <= k,
        row < labels.len(),
    ensures
        folds_validating_on(stratified_folds(shuffled, k), row, k) == 1,
        folds_training_on(stratified_folds(shuffled, k), row, k) == k - 1,
        forall|i: int|
            0 <= i < k ==> ((#[trigger] stratified_folds(shuffled, k)[i]).0.contains(row) <==> !stratified_folds(
                shuffled,
                k,
            )[i].1.contains(row)),
{
    let n = labels.len() as int;
    let keys = class_keys(labels, n);
    let folds = stratified_folds(shuffled, k);
    lemma_class_keys(labels, n);
    assert(keys.contains(labels[row as int]));
    let home = choose|g: int| 0 <= g < keys.len() && keys[g] == labels[row as int];
    let group = shuffled[home];
    assert forall|g: int| 0 <= g < shuffled.len() implies ((#[trigger] shuffled[g]).contains(row) <==> g == home)
        && shuffled[g].no_duplicates() by {
        lemma_class_rows(labels, keys[g], n);
        lemma_same_elements(class_groups(labels, n)[g], shuffled[g]);
    }
    let position = choose|at: int| 0 <= at < group.len() && group[at] == row;
    let len = group.len() as int;
    let bounds = Seq::new((k + 1) as nat, |i: int| if i < k { group_start(len, k, i) } else { len });
    assert forall|i: int| 0 <= i < k implies group_end(len, k, i) == #[trigger] bounds[i + 1] && bounds[i]
        == group_start(len, k, i) && bounds[i] <= bounds[i + 1] by {
        lemma_group_bounds(len, k, i);
    }
    assert forall|i: int| 0 <= i < bounds.len() - 1 implies ((#[trigger] folds[i]).1.contains(row) <==> bounds[i]
        <= position < bounds[i + 1]) && (folds[i].0.contains(row) <==> !(bounds[i] <= position
        < bounds[i + 1])) by {
        lemma_group_bounds(len, k, i);
        lemma_run_contains(group, position, group_start(len, k, i), group_end(len, k, i));
        lemma_stratified_contains(shuffled, k, i, row);
        assert forall|g: int| 0 <= g < shuffled.len() && g != home implies !group_validation(
            #[trigger] shuffled[g],
            k,
            i,
        ).contains(row) && !group_training(shuffled[g], k, i).contains(row) by {
            lemma_share_in_group(shuffled[g], k, i, row);
        }
    }
    lemma_group_bounds(len, k, 0);
    lemma_runs_tile(folds, row, position, bounds, k);
}

/// How many of `rows` belong to the class of `key`.
pub open spec fn class_count(rows: Seq<usize>, labels: Seq<Numeric>, key: Numeric) -> int
    decreases rows.len(),
{
    if rows.len() == 0 {
        0
    } else if rows.last() < labels.len() && labels[rows.last() as int] == key {
        class_count(rows.drop_last(), labels, key) + 1
    } else {
        class_count(rows.drop_last(), labels, key)
    }
}

/// The share of a class that falls to each fold where the class divides
/// evenly: its size over `k`, rounded up.
pub open spec fn even_share(size: int, k: int) -> int {
    (size + k - 1) / k
}

/// The members of a class are counted over two runs by counting over each.
pub proof fn lemma_class_count_concat(a: Seq<usize>, b: Seq<usize>, labels: Seq<Numeric>, key: Numeric)
    ensures
        class_count(a + b, labels, key) == class_count(a, labels, key) + class_count(b, labels, key),
    decreases b.len(),
{
    if b.len() == 0 {
        assert(a + b == a);
    } else {
        assert((a + b).drop_last() == a + b.drop_last());
        lemma_class_count_concat(a, b.drop_last(), labels, key);
    }
}

/// Rows that all belong to one class count in full for that class and not
/// at all for another.
pub proof fn lemma_class_count_uniform(rows: Seq<usize>, labels: Seq<Numeric>, own: Numeric, key: Numeric)
    requires
        forall|at: int| 0 <= at < rows.len() ==> rows[at] < labels.len() && labels[rows[at] as int] == own,
    ensures
        class_count(rows, labels, key) == if own == key {
            rows.len() as int
        } else {
            0
        },
    decreases rows.len(),
{
    if rows.len() > 0 {
        lemma_class_count_uniform(rows.drop_last(), labels, own, key);
    }
}

/// The members of the class of `key` among the validation rows of fold `i`
/// are that fold's share of the class's own group.
pub proof fn lemma_class_count_of_fold(
    shuffled: Seq<Seq<usize>>,
    labels: Seq<Numeric>,
    k: int,
    i: int,
    key: Numeric,
    upto: int,
)
    requires
        StratifiedKFold::shuffles(shuffled, labels),
        labels.len() <= usize::MAX,
        2 <= k,
        0 <= i < k,
        0 <= upto <= shuffled.len(),
    ensures
        class_count(stratified_validation(shuffled.take(upto), k, i), labels, key) == if exists|g: int|
            0 <= g < upto && class_keys(labels, labels.len() as int)[g] == key {
            let g = choose|g: int| 0 <= g < upto && class_keys(labels, labels.len() as int)[g] == key;
            group_end(shuffled[g].len() as int, k, i) - group_start(shuffled[g].len() as int, k, i)
        } else {
            0
        },
    decreases upto,
{
    let n = labels.len() as int;
    let keys = class_keys(labels, n);
    lemma_class_keys(labels, n);
    if upto > 0 {
        let front = shuffled.take(upto - 1);
        let group = shuffled[upto - 1];
        assert(shuffled.take(upto).drop_last() == front);
        assert(shuffled.take(upto).last() == group);
        lemma_class_count_of_fold(shuffled, labels, k, i, key, upto - 1);
        lemma_class_count_concat(stratified_validation(front, k, i), group_validation(group, k, i), labels, key);
        let run = group_validation(group, k, i);
        lemma_group_bounds(group.len() as int, k, i);
        lemma_class_rows(labels, keys[upto - 1], n);
        lemma_same_elements(class_groups(labels, n)[upto - 1], group);
        assert(class_groups(labels, n)[upto - 1] == class_rows(labels, keys[upto - 1], n));
        assert forall|at: int| 0 <= at < run.len() implies run[at] < labels.len() && labels[run[at] as int]
            == keys[upto - 1] by {
            assert(run.contains(run[at]));
            lemma_share_in_group(group, k, i, run[at]);
            assert(group.contains(run[at]));
            assert(class_rows(labels, keys[upto - 1], n).contains(run[at]));
        }
        lemma_class_count_uniform(run, labels, keys[upto - 1], key);
        if keys[upto - 1] == key {
            assert forall|g: int| 0 <= g < upto && keys[g] == key implies g == upto - 1 by {}
        } else {
            assert forall|g: int| 0 <= g < upto && keys[g] == key implies g < upto - 1 by {}
        }
    }
}

/// No class has fewer than no members among any rows.
pub proof fn lemma_class_count_nonnegative(rows: Seq<usize>, labels: Seq<Numeric>, key: Numeric)
    ensures
        class_count(rows, labels, key) >= 0,
    decreases rows.len(),
{
    if rows.len() > 0 {
        lemma_class_count_nonnegative(rows.drop_last(), labels, key);
    }
}

/// The training rows of a fold hold of the class of a group at least what
/// the fold trains on of the group itself.
pub proof fn lemma_class_count_training(
    shuffled: Seq<Seq<usize>>,
    labels: Seq<Numeric>,
    k: int,
    i: int,
    g: int,
    upto: int,
)
    requires
        StratifiedKFold::shuffles(shuffled, labels),
        labels.len() <= usize::MAX,
        2 <= k,
        0 <= i < k,
        0 <= g < shuffled.len(),
        0 <= upto <= shuffled.len(),
    ensures
        g < upto ==> class_count(
            stratified_training(shuffled.take(upto), k, i),
            labels,
            class_keys(labels, labels.len() as int)[g],
        ) >= group_training(shuffled[g], k, i).len(),
    decreases upto,
{
    let n = labels.len() as int;
    let keys = class_keys(labels, n);
    let key = keys[g];
    if g < upto {
        let front = shuffled.take(upto - 1);
        let group = shuffled[upto - 1];
        assert(shuffled.take(upto).drop_last() == front);
        assert(shuffled.take(upto).last() == group);
        lemma_class_count_training(shuffled, labels, k, i, g, upto - 1);
        lemma_class_count_concat(stratified_training(front, k, i), group_training(group, k, i), labels, key);
        lemma_class_count_nonnegative(stratified_training(front, k, i), labels, key);
        lemma_class_count_nonnegative(group_training(group, k, i), labels, key);
        if upto - 1 == g {
            let part = group_training(group, k, i);
            lemma_class_rows(labels, key, n);
            lemma_same_elements(class_groups(labels, n)[g], group);
            assert(class_groups(labels, n)[g] == class_rows(labels, key, n));
            assert forall|at: int| 0 <= at < part.len() implies part[at] < labels.len() && labels[part[at] as int]
                == key by {
                assert(part.contains(part[at]));
                lemma_share_in_group(group, k, i, part[at]);
                assert(class_rows(labels, key, n).contains(part[at]));
            }
            lemma_class_count_uniform(part, labels, key, key);
        }
    }
}

/// Stratified folds keep the classes in proportion: the members of a class
/// that a fold validates on differ in number from the even share of the class
/// by one at most. This holds of every fold but the last, and of the last
/// where the class leaves two rows or fewer when divided by `k`.
pub proof fn lemma_stratified_balance(
    shuffled: Seq<Seq<usize>>,
    labels: Seq<Numeric>,
    k: int,
    i: int,
    key: Numeric,
)
    requires
        StratifiedKFold::shuffles(shuffled, labels),
        labels.len() <= usize::MAX,
        2 <= k,
        0 <= i < k,
        i < k - 1 || class_rows(labels, key, labels.len() as int).len() % (k as nat) <= 2,
    ensures
        -1 <= class_count(stratified_folds(shuffled, k)[i].1, labels, key) - even_share(
            class_rows(labels, key, labels.len() as int).len() as int,
            k,
        ) <= 1,
{
    let n = labels.len() as int;
    let keys = class_keys(labels, n);
    let size = class_rows(labels, key, n).len() as int;
    lemma_class_keys(labels, n);
    lemma_class_count_of_fold(shuffled, labels, k, i, key, shuffled.len() as int);
    assert(shuffled.take(shuffled.len() as int) == shuffled);
    if exists|g: int| 0 <= g < keys.len() && keys[g] == key {
        let g = choose|g: int| 0 <= g < keys.len() && keys[g] == key;
        lemma_same_elements(class_groups(labels, n)[g], shuffled[g]);
        assert(shuffled[g].len() == size);
        lemma_group_bounds(size, k, i);
        let f = size / k;
        let r = size % k;
        assert(size == k * f + r && 0 <= r < k && (k - 1) * f == k * f - f && (size + k - 1) / k == if r
            == 0 {
            f
        } else {
            f + 1
        }) by (nonlinear_arith)
            requires
                k >= 2,
                size >= 0,
                f == size / k,
                r == size % k,
        ;
        assert(i * f + f == (i + 1) * f) by (nonlinear_arith);
    } else {
        if size > 0 {
            lemma_class_rows(labels, key, n);
            let x = class_rows(labels, key, n)[0];
            assert(class_rows(labels, key, n).contains(x));
            assert(keys.contains(labels[x as int]));
        }
        assert((0 + k - 1) / k == 0) by (nonlinear_arith)
            requires
                k >= 2,
        ;
    }
}

/// A shuffled group is as long as the class group that it shuffles.
pub proof fn lemma_same_elements_of_groups(shuffled: Seq<Seq<usize>>, labels: Seq<Numeric>, g: int)
    requires
        StratifiedKFold::shuffles(shuffled, labels),
        0 <= g < shuffled.len(),
    ensures
        shuffled[g].len() == class_groups(labels, labels.len() as int)[g].len(),
{
    lemma_same_elements(class_groups(labels, labels.len() as int)[g], shuffled[g]);
}

/// A fold holds at least as many rows as it takes of any one group.
pub proof fn lemma_stratified_lengths(groups: Seq<Seq<usize>>, k: int, i: int, g: int)
    requires
        0 <= g < groups.len(),
    ensures
        stratified_validation(groups, k, i).len() >= group_validation(groups[g], k, i).len(),
        stratified_training(groups, k, i).len() >= group_training(groups[g], k, i).len(),
    decreases groups.len(),
{
    if g < groups.len() - 1 {
        lemma_stratified_lengths(groups.drop_last(), k, i, g);
        assert(groups.drop_last()[g] == groups[g]);
    }
}

/// Where a class has a row for each fold, every stratified fold has rows
/// to train on and rows to validate on.
pub proof fn lemma_stratified_nonempty(shuffled: Seq<Seq<usize>>, labels: Seq<Numeric>, k: int, i: int, key: Numeric)
    requires
        StratifiedKFold::shuffles(shuffled, labels),
        labels.len() <= usize::MAX,
        2 <= k,
        0 <= i < k,
        class_rows(labels, key, labels.len() as int).len() >= k,
    ensures
        stratified_training(shuffled, k, i).len() >= 1,
        stratified_validation(shuffled, k, i).len() >= 1,
        stratified_training(shuffled, k, i).len() >= k - 1,
{
    let n = labels.len() as int;
    let keys = class_keys(labels, n);
    lemma_class_keys(labels, n);
    lemma_class_rows(labels, key, n);
    let member = class_rows(labels, key, n)[0];
    assert(class_rows(labels, key, n).contains(member));
    assert(keys.contains(labels[member as int]));
    let g = choose|g: int| 0 <= g < keys.len() && keys[g] == key;
    assert(class_groups(labels, n)[g] == class_rows(labels, key, n));
    lemma_same_elements(class_groups(labels, n)[g], shuffled[g]);
    let len = shuffled[g].len() as int;
    lemma_group_bounds(len, k, i);
    lemma_stratified_lengths(shuffled, k, i, g);
    let f = len / k;
    assert(f >= 1 && k * f <= len && (k - 1) * f == k * f - f && (k - 1) * f >= k - 1) by (nonlinear_arith)
        requires
            len >= k,
            k >= 2,
            f == len / k,
    ;
    assert(i * f + f == (i + 1) * f) by (nonlinear_arith);
    assert(0 <= i * f) by (nonlinear_arith)
        requires
            0 <= i,
            0 <= f,
    ;
}

/// Cuts every group into `k` runs and makes fold `i` of run `i` of each.
pub fn stratified_split(groups: &Vec<Vec<usize>>, k: usize) -> (folds: Vec<(Vec<usize>, Vec<usize>)>)
    requires
        k >= 2,
    ensures
        folds_view(folds@) == stratified_folds(groups_view(groups@), k as int),
{
    let mut folds: Vec<(Vec<usize>, Vec<usize>)> = Vec::new();
    let mut i: usize = 0;
    while i < k
        invariant
            2 <= k,
            i <= k,
            folds@.len() == i,
            forall|j: int|
                0 <= j < i ==> fold_view(#[trigger] folds@[j]) == (
                    stratified_training(groups_view(groups@), k as int, j),
                    stratified_validation(groups_view(groups@), k as int, j),
                ),
        decreases k - i,
    {
        let mut train: Vec<usize> = Vec::new();
        let mut validation: Vec<usize> = Vec::new();
        let mut g: usize = 0;
        while g < groups.len()
            invariant
                2 <= k,
                i < k,
                g <= groups@.len(),
                train@ == stratified_training(groups_view(groups@).take(g as int), k as int, i as int),
                validation@ == stratified_validation(groups_view(groups@).take(g as int), k as int, i as int),
            decreases groups@.len() - g,
        {
            let group = &groups[g];
            let len = group.len();
            proof {
                lemma_group_bounds(len as int, k as int, i as int);
                assert(groups_view(groups@).take(g + 1).drop_last() == groups_view(groups@).take(g as int));
                assert(groups_view(groups@).take(g + 1).last() == group@);
            }
            let size = len / k;
            let start = i * size;
            let end = if i < k - 1 {
                start + size
            } else {
                len
            };
            append_range(&mut train, group, 0, start);
            append_range(&mut train, group, end, len);
            append_range(&mut validation, group, start, end);
            g = g + 1;
            proof {
                assert(train@ =~= stratified_training(
                    groups_view(groups@).take(g as int),
                    k as int,
                    i as int,
                ));
            }
        }
        proof {
            assert(groups_view(groups@).take(g as int) == groups_view(groups@));
        }
        folds.push((train, validation));
        i = i + 1;
    }
    proof {
        assert(folds_view(folds@) =~= stratified_folds(groups_view(groups@), k as int));
    }
    folds
}

impl StratifiedKFold {
    /// Whether the stratified partitioner turns the request down: the label
    /// column is not in the table, no number of folds is given, or fewer than
    /// two folds are asked for.
    pub open spec fn rejects(
        table: &DataFrame<Numeric>,
        label_column_idx: usize,
        parameters: &Dictionary<Numeric>,
    ) -> bool {
        ||| label_column_idx >= table@.len()
        ||| requested_folds(parameters) is None
        ||| requested_folds(parameters).unwrap() < 2
    }

    /// Whether `shuffled` holds the class groups of `labels`, each in some order.
    pub open spec fn shuffles(shuffled: Seq<Seq<usize>>, labels: Seq<Numeric>) -> bool {
        &&& shuffled.len() == class_groups(labels, labels.len() as int).len()
        &&& forall|g: int|
            0 <= g < shuffled.len() ==> (#[trigger] shuffled[g]).to_multiset() == class_groups(
                labels,
                labels.len() as int,
            )[g].to_multiset()
    }

    /// Whether `folds` are the `k` stratified folds of the class groups of
    /// `labels`, each group in some order.
    pub open spec fn deals_labels(labels: Seq<Numeric>, k: int, folds: Seq<(Vec<usize>, Vec<usize>)>) -> bool {
        exists|shuffled: Seq<Seq<usize>>|
            Self::shuffles(shuffled, labels) && folds_view(folds) == #[trigger] stratified_folds(shuffled, k)
    }

    /// Whether `folds` are the stratified folds of the class groups of
    /// `table`, each group in some order.
    pub open spec fn deals(
        table: &DataFrame<Numeric>,
        label_column_idx: usize,
        parameters: &Dictionary<Numeric>,
        folds: Seq<(Vec<usize>, Vec<usize>)>,
    ) -> bool {
        Self::deals_labels(
            table@[label_column_idx as int]@,
            requested_folds(parameters).unwrap() as int,
            folds,
        )
    }

    /// Deals the rows of `table` into as many folds as `num_folds` says, so
    /// that every fold validates on its share of each class.
    ///
    /// The folds are those of `stratified_rows` for the label column.
    pub fn partition(
        table: &DataFrame<Numeric>,
        label_column_idx: usize,
        parameters: &Dictionary<Numeric>,
        rng: &mut StdRng,
    ) -> (folds: Result<Vec<(Vec<usize>, Vec<usize>)>, PipelineError>)
        ensures
            folds is Err <==> Self::rejects(table, label_column_idx, parameters),
            folds is Err ==> folds == Err::<Vec<(Vec<usize>, Vec<usize>)>, PipelineError>(
                PipelineError::InvalidParams,
            ),
            folds is Ok ==> Self::deals(table, label_column_idx, parameters, folds.unwrap()@),
    {
        let label_column = match table.get_column_idx(label_column_idx) {
            Some(column) => column,
            None => {
                return Err(PipelineError::InvalidParams);
            },
        };
        let k = match read_fold_count(parameters) {
            Some(k) => k,
            None => {
                return Err(PipelineError::InvalidParams);
            },
        };
        if k < 2 {
            return Err(PipelineError::InvalidParams);
        }
        Ok(stratified_rows(label_column.values(), k, rng))
    }
}

/// The rows that stratified folds name are rows of the table.
pub proof fn lemma_stratified_rows_below(shuffled: Seq<Seq<usize>>, labels: Seq<Numeric>, k: int, i: int, row: usize)
    requires
        StratifiedKFold::shuffles(shuffled, labels),
        labels.len() <= usize::MAX,
        2 <= k,
        0 <= i < k,
        stratified_training(shuffled, k, i).contains(row) || stratified_validation(shuffled, k, i).contains(row),
    ensures
        row < labels.len(),
{
    let n = labels.len() as int;
    lemma_stratified_contains(shuffled, k, i, row);
    let g = if stratified_validation(shuffled, k, i).contains(row) {
        choose|g: int| 0 <= g < shuffled.len() && group_validation(#[trigger] shuffled[g], k, i).contains(row)
    } else {
        choose|g: int| 0 <= g < shuffled.len() && group_training(#[trigger] shuffled[g], k, i).contains(row)
    };
    lemma_share_in_group(shuffled[g], k, i, row);
    lemma_same_elements(class_groups(labels, n)[g], shuffled[g]);
    lemma_class_rows(labels, class_keys(labels, n)[g], n);
}

/// Deals the rows that carry `labels` into `k` stratified folds: the rows
/// are grouped by `group_by_class`, each group is shuffled with `rng`, and
/// `stratified_split` cuts the groups.
pub fn stratified_rows(labels: &[Numeric], k: usize, rng: &mut StdRng) -> (folds: Vec<(Vec<usize>, Vec<usize>)>)
    requires
        k >= 2,
    ensures
        StratifiedKFold::deals_labels(labels@, k as int, folds@),
        folds@.len() == k,
        rows_below(folds@, labels@.len()),
{
    let groups = group_by_class(labels);
    let shuffled = shuffle_groups(&groups, rng);
    let folds = stratified_split(&shuffled, k);
    let count = labels.len();
    proof {
        let witness = groups_view(shuffled@);
        assert(StratifiedKFold::shuffles(witness, labels@)) by {
            assert forall|g: int| 0 <= g < witness.len() implies (#[trigger] witness[g]).to_multiset()
                == class_groups(labels@, labels@.len() as int)[g].to_multiset() by {
                assert(witness[g] == shuffled@[g]@);
                assert(groups_view(groups@)[g] == groups@[g]@);
            }
        }
        assert(folds_view(folds@) == stratified_folds(witness, k as int));
        assert(folds_view(folds@).len() == folds@.len());
        assert forall|i: int| 0 <= i < folds@.len() implies (forall|j: int|
            0 <= j < (#[trigger] folds@[i]).0@.len() ==> folds@[i].0@[j] < labels@.len()) && (forall|j: int|
            0 <= j < folds@[i].1@.len() ==> folds@[i].1@[j] < labels@.len()) by {
            assert(folds_view(folds@)[i] == (folds@[i].0@, folds@[i].1@));
            assert forall|j: int| 0 <= j < folds@[i].0@.len() implies folds@[i].0@[j] < labels@.len() by {
                assert(stratified_training(witness, k as int, i).contains(folds@[i].0@[j]));
                lemma_stratified_rows_below(witness, labels@, k as int, i, folds@[i].0@[j]);
            }
            assert forall|j: int| 0 <= j < folds@[i].1@.len() implies folds@[i].1@[j] < labels@.len() by {
                assert(stratified_validation(witness, k as int, i).contains(folds@[i].1@[j]));
                lemma_stratified_rows_below(witness, labels@, k as int, i, folds@[i].1@[j]);
            }
        }
    }
    folds
}

/// Shuffles every group on its own.
pub fn shuffle_groups(groups: &Vec<Vec<usize>>, rng: &mut StdRng) -> (shuffled: Vec<Vec<usize>>)
    ensures
        shuffled@.len() == groups@.len(),
        forall|g: int|
            0 <= g < groups@.len() ==> (#[trigger] shuffled@[g])@.to_multiset() == groups@[g]@.to_multiset(),
{
    let mut shuffled: Vec<Vec<usize>> = Vec::new();
    let mut g: usize = 0;
    while g < groups.len()
        invariant
            g <= groups@.len(),
            shuffled@.len() == g,
            forall|j: int| 0 <= j < g ==> (#[trigger] shuffled@[j])@.to_multiset() == groups@[j]@.to_multiset(),
        decreases groups@.len() - g,
    {
        let mut group: Vec<usize> = Vec::new();
        append_range(&mut group, &groups[g], 0, groups[g].len());
        assert(group@ =~= groups@[g as int]@);
        shuffle(&mut group, rng);
        shuffled.push(group);
        g = g + 1;
    }
    shuffled
}

} // verus!

//! The k-nearest-neighbour model: it keeps reference samples and answers
//! for a sample with the class that most of its nearest references have.

use crate::dictionary::Dictionary;
use crate::models::{mode, mode_first};
use crate::text::{
    count_to_string, decimal_digits, decimal_usize, numeric_text, numeric_to_string, numeric_value,
    parse_numeric, parse_usize,
};
use crate::types::{Numeric, PipelineError};
use vstd::prelude::*;
use vstd::relations::{sorted_by, total_ordering};
use vstd::seq_lib::lemma_sorted_unique;

verus! {

/// A k-nearest-neighbour model.
pub struct KNearestNeighbor {
    /// The reference samples.
    pub label_examples: Vec<Vec<Numeric>>,
    /// The place of the class in a sample; all other places are features.
    pub label_index: usize,
    /// How many of the nearest references vote.
    pub num_neighbors: usize,
    /// How far an answer may lie from the class of a sample and still count
    /// as right.
    pub epsilon: Numeric,
}

/// The number of features of `sample`.
pub open spec fn feature_count(sample: Seq<Numeric>, label_index: int) -> int {
    if 0 <= label_index < sample.len() {
        sample.len() - 1
    } else {
        sample.len() as int
    }
}

/// Feature `j` of `sample`: the places in order, the place of the class left out.
pub open spec fn feature_at(sample: Seq<Numeric>, label_index: int, j: int) -> Numeric {
    if 0 <= label_index < sample.len() && j >= label_index {
        sample[j + 1]
    } else {
        sample[j]
    }
}

/// The number of features that two samples have in common, counted from the first.
pub open spec fn paired_features(a: Seq<Numeric>, b: Seq<Numeric>, label_index: int) -> int {
    if feature_count(a, label_index) <= feature_count(b, label_index) {
        feature_count(a, label_index)
    } else {
        feature_count(b, label_index)
    }
}

/// The sum of the squared gaps between the first `upto` features of `a` and `b`.
pub open spec fn squares_upto(a: Seq<Numeric>, b: Seq<Numeric>, label_index: int, upto: int) -> int
    decreases upto,
{
    if upto <= 0 {
        0
    } else {
        let gap = feature_at(b, label_index, upto - 1) - feature_at(a, label_index, upto - 1);
        squares_upto(a, b, label_index, upto - 1) + gap * gap
    }
}

/// The squared Euclidean distance between `a` and `b` over their features.
pub open spec fn squared_distance(a: Seq<Numeric>, b: Seq<Numeric>, label_index: int) -> int {
    squares_upto(a, b, label_index, paired_features(a, b, label_index))
}

/// A distance as it is held in 128 bits: one too large for them counts as
/// the largest that they hold.
pub open spec fn saturated(distance: int) -> u128 {
    if distance > u128::MAX {
        u128::MAX
    } else if distance < 0 {
        0
    } else {
        distance as u128
    }
}

/// A sum of squares is not negative.
pub proof fn lemma_squares_nonnegative(a: Seq<Numeric>, b: Seq<Numeric>, label_index: int, upto: int)
    ensures
        squares_upto(a, b, label_index, upto) >= 0,
    decreases upto,
{
    if upto > 0 {
        lemma_squares_nonnegative(a, b, label_index, upto - 1);
        let gap = feature_at(b, label_index, upto - 1) - feature_at(a, label_index, upto - 1);
        assert(gap * gap >= 0) by (nonlinear_arith);
    }
}

/// The squared distance between `sample` and `example` over their features,
/// held in 128 bits.
pub fn distance(sample: &[Numeric], example: &[Numeric], label_index: usize) -> (d: u128)
    ensures
        d == saturated(squared_distance(sample@, example@, label_index as int)),
{
    let sample_features = if label_index < sample.len() {
        sample.len() - 1
    } else {
        sample.len()
    };
    let example_features = if label_index < example.len() {
        example.len() - 1
    } else {
        example.len()
    };
    let paired = if sample_features <= example_features {
        sample_features
    } else {
        example_features
    };
    let mut total: u128 = 0;
    let mut j: usize = 0;
    while j < paired
        invariant
            j <= paired,
            paired == paired_features(sample@, example@, label_index as int),
            total == saturated(squares_upto(sample@, example@, label_index as int, j as int)),
        decreases paired - j,
    {
        let of_sample = if label_index < sample.len() && j >= label_index {
            sample[j + 1]
        } else {
            sample[j]
        };
        let of_example = if label_index < example.len() && j >= label_index {
            example[j + 1]
        } else {
            example[j]
        };
        let gap: u128 = if of_example >= of_sample {
            (of_example as i128 - of_sample as i128) as u128
        } else {
            (of_sample as i128 - of_example as i128) as u128
        };
        proof {
            let signed = of_example - of_sample;
            assert(gap * gap == signed * signed && gap * gap <= u128::MAX) by (nonlinear_arith)
                requires
                    gap == signed || gap == -signed,
                    gap <= 0xffff_ffff_ffff_ffff,
            ;
            lemma_squares_nonnegative(sample@, example@, label_index as int, j as int);
        }
        let square = gap * gap;
        total = total.saturating_add(square);
        j = j + 1;
    }
    total
}

/// Whether neighbour `a` comes no later than neighbour `b`: the nearer
/// first, and of two equally near the one that stands earlier among the
/// references.
pub open spec fn neighbor_leq(a: (u128, usize), b: (u128, usize)) -> bool {
    a.0 < b.0 || (a.0 == b.0 && a.1 <= b.1)
}

/// The order of neighbours as a relation.
pub open spec fn neighbor_order() -> spec_fn((u128, usize), (u128, usize)) -> bool {
    |a: (u128, usize), b: (u128, usize)| neighbor_leq(a, b)
}

/// The order of neighbours is total.
pub proof fn lemma_neighbor_order_total()
    ensures
        total_ordering(neighbor_order()),
{
    let order = neighbor_order();
    assert(vstd::relations::reflexive(order));
    assert(vstd::relations::antisymmetric(order));
    assert(vstd::relations::transitive(order));
    assert(vstd::relations::strongly_connected(order));
}

/// Settings as pairs of name and written value.
pub open spec fn settings_text(settings: Seq<(Seq<char>, String)>) -> Seq<(Seq<char>, Seq<char>)> {
    settings.map_values(|entry: (Seq<char>, String)| (entry.0, entry.1@))
}

/// The references as sequences.
pub open spec fn examples_view(examples: Seq<Vec<Numeric>>) -> Seq<Seq<Numeric>> {
    examples.map_values(|example: Vec<Numeric>| example@)
}

/// Every reference with its distance from `sample` and its place, in the
/// order of the references.
pub open spec fn distances_of(examples: Seq<Seq<Numeric>>, sample: Seq<Numeric>, label_index: int) -> Seq<
    (u128, usize),
> {
    Seq::new(
        examples.len(),
        |i: int| (saturated(squared_distance(sample, examples[i], label_index)), i as usize),
    )
}

/// The references from the nearest to the farthest, each with its distance
/// and its place.
pub open spec fn neighbors_of(examples: Seq<Seq<Numeric>>, sample: Seq<Numeric>, label_index: int) -> Seq<
    (u128, usize),
> {
    distances_of(examples, sample, label_index).sort_by(neighbor_order())
}

/// How many references vote: `k`, or all where there are fewer.
pub open spec fn voters(examples: Seq<Seq<Numeric>>, k: int) -> int {
    if k <= examples.len() {
        k
    } else {
        examples.len() as int
    }
}

/// The classes of the `k` nearest references, nearest first.
pub open spec fn votes_of(examples: Seq<Seq<Numeric>>, sample: Seq<Numeric>, label_index: int, k: int) -> Seq<
    Numeric,
> {
    Seq::new(
        voters(examples, k) as nat,
        |j: int| examples[neighbors_of(examples, sample, label_index)[j].1 as int][label_index],
    )
}

/// The class that the references give to `sample`: the one that most of the
/// `k` nearest have; of several such classes the one of the nearest.
pub open spec fn label_of(examples: Seq<Seq<Numeric>>, sample: Seq<Numeric>, label_index: int, k: int) -> Numeric {
    mode_first(votes_of(examples, sample, label_index, k))
}

/// There is one order of the neighbours only: whatever puts the references
/// with their distances in rising order, the earlier of two equally near
/// ones first, arrives at the same sequence.
pub proof fn lemma_neighbors_unique(
    examples: Seq<Seq<Numeric>>,
    sample: Seq<Numeric>,
    label_index: int,
    ordered: Seq<(u128, usize)>,
)
    requires
        ordered.to_multiset() == distances_of(examples, sample, label_index).to_multiset(),
        sorted_by(ordered, neighbor_order()),
    ensures
        ordered == neighbors_of(examples, sample, label_index),
{
    lemma_neighbor_order_total();
    distances_of(examples, sample, label_index).lemma_sort_by_ensures(neighbor_order());
    lemma_sorted_unique(ordered, neighbors_of(examples, sample, label_index), neighbor_order());
}

/// The class of a sample depends on nothing but the references, the place
/// of the class and the number of neighbours: two models that agree in
/// these give every sample the same class.
pub proof fn lemma_label_is_a_function(first: KNearestNeighbor, second: KNearestNeighbor, sample: Seq<Numeric>)
    requires
        first.examples() == second.examples(),
        first.label_index == second.label_index,
        first.num_neighbors == second.num_neighbors,
    ensures
        label_of(first.examples(), sample, first.label_index as int, first.num_neighbors as int) == label_of(
            second.examples(),
            sample,
            second.label_index as int,
            second.num_neighbors as int,
        ),
{
}

/// Pairs that each carry their own place, put in order: the result has as
/// many pairs, every pair of it is the pair of the place it carries, and no
/// two of its pairs carry the same place.
pub proof fn lemma_sorted_places(pairs: Seq<(u128, usize)>)
    requires
        pairs.len() <= usize::MAX,
        forall|i: int| 0 <= i < pairs.len() ==> (#[trigger] pairs[i]).1 == i,
    ensures
        pairs.sort_by(neighbor_order()).len() == pairs.len(),
        pairs.sort_by(neighbor_order()).to_multiset() == pairs.to_multiset(),
        sorted_by(pairs.sort_by(neighbor_order()), neighbor_order()),
        forall|p: int|
            0 <= p < pairs.len() ==> (#[trigger] pairs.sort_by(neighbor_order())[p]).1 < pairs.len()
                && pairs[pairs.sort_by(neighbor_order())[p].1 as int] == pairs.sort_by(neighbor_order())[p],
        forall|p: int, q: int|
            0 <= p < pairs.len() && 0 <= q < pairs.len() && p != q ==> (#[trigger] pairs.sort_by(
                neighbor_order(),
            )[p]).1 != (#[trigger] pairs.sort_by(neighbor_order())[q]).1,
{
    let sorted = pairs.sort_by(neighbor_order());
    lemma_neighbor_order_total();
    pairs.lemma_sort_by_ensures(neighbor_order());
    pairs.to_multiset_ensures();
    sorted.to_multiset_ensures();
    assert(pairs.no_duplicates());
    pairs.lemma_multiset_has_no_duplicates();
    sorted.lemma_multiset_has_no_duplicates_conv();
    assert forall|p: int| 0 <= p < pairs.len() implies (#[trigger] sorted[p]).1 < pairs.len() && pairs[sorted[p].1 as int]
        == sorted[p] by {
        assert(sorted.contains(sorted[p]));
        assert(sorted.to_multiset().count(sorted[p]) > 0);
        assert(pairs.to_multiset().count(sorted[p]) > 0);
        assert(pairs.contains(sorted[p]));
        let at = choose|at: int| 0 <= at < pairs.len() && pairs[at] == sorted[p];
        assert(pairs[at].1 == at);
    }
}

/// The neighbours are the references in another order: as many, and each
/// names a reference.
pub proof fn lemma_neighbors(examples: Seq<Seq<Numeric>>, sample: Seq<Numeric>, label_index: int)
    requires
        examples.len() <= usize::MAX,
    ensures
        neighbors_of(examples, sample, label_index).len() == examples.len(),
        neighbors_of(examples, sample, label_index).to_multiset() == distances_of(
            examples,
            sample,
            label_index,
        ).to_multiset(),
        sorted_by(neighbors_of(examples, sample, label_index), neighbor_order()),
        forall|j: int|
            0 <= j < examples.len() ==> (#[trigger] neighbors_of(examples, sample, label_index)[j]).1
                < examples.len() && neighbors_of(examples, sample, label_index)[j].0 == saturated(
                squared_distance(
                    sample,
                    examples[neighbors_of(examples, sample, label_index)[j].1 as int],
                    label_index,
                ),
            ),
{
    let all = distances_of(examples, sample, label_index);
    let near = neighbors_of(examples, sample, label_index);
    lemma_neighbor_order_total();
    all.lemma_sort_by_ensures(neighbor_order());
    all.to_multiset_ensures();
    near.to_multiset_ensures();
    assert forall|j: int| 0 <= j < examples.len() implies (#[trigger] near[j]).1 < examples.len() && near[j].0
        == saturated(squared_distance(sample, examples[near[j].1 as int], label_index)) by {
        assert(near.contains(near[j]));
        assert(near.to_multiset().count(near[j]) > 0);
        assert(all.to_multiset().count(near[j]) > 0);
        assert(all.contains(near[j]));
        let at = choose|at: int| 0 <= at < all.len() && all[at] == near[j];
        assert(all[at].1 == at);
    }
}

/// The number of neighbours and the tolerance after the first `upto`
/// entries of `settings` are read in order, starting from `neighbors` and
/// `epsilon`: an entry named `num_neighbors` sets the number to the count
/// that its value writes, one named `epsilon` sets the tolerance to the
/// number that its value writes, and a value that writes none ends the
/// reading with `Numeric`. Entries of other names are passed over.
pub open spec fn configured(settings: Seq<(Seq<char>, String)>, upto: int, neighbors: usize, epsilon: Numeric) -> Result<
    (usize, Numeric),
    PipelineError,
>
    decreases upto,
{
    if upto <= 0 {
        Ok((neighbors, epsilon))
    } else {
        match configured(settings, upto - 1, neighbors, epsilon) {
            Err(error) => Err(error),
            Ok(before) => if settings[upto - 1].0 == "num_neighbors"@ {
                match decimal_usize(settings[upto - 1].1@) {
                    Some(count) => Ok((count, before.1)),
                    None => Err(PipelineError::Numeric),
                }
            } else if settings[upto - 1].0 == "epsilon"@ {
                match numeric_value(settings[upto - 1].1@) {
                    Some(number) => Ok((before.0, number)),
                    None => Err(PipelineError::Numeric),
                }
            } else {
                Ok(before)
            },
        }
    }
}

/// Reads the number of neighbours and the tolerance from `settings`,
/// starting from `neighbors` and `epsilon`.
pub fn read_settings(settings: &Dictionary<String>, neighbors: usize, epsilon: Numeric) -> (read: Result<
    (usize, Numeric),
    PipelineError,
>)
    ensures
        read == configured(settings@, settings@.len() as int, neighbors, epsilon),
{
    let for_neighbors = "num_neighbors".to_owned();
    let for_epsilon = "epsilon".to_owned();
    let mut current = neighbors;
    let mut tolerance = epsilon;
    let mut at: usize = 0;
    while at < settings.len()
        invariant
            at <= settings@.len(),
            for_neighbors@ == "num_neighbors"@,
            for_epsilon@ == "epsilon"@,
            configured(settings@, at as int, neighbors, epsilon) == Ok::<(usize, Numeric), PipelineError>(
                (current, tolerance),
            ),
        decreases settings@.len() - at,
    {
        if *settings.name_at(at) == for_neighbors {
            match parse_usize(settings.value_at(at).as_str()) {
                Some(count) => {
                    current = count;
                },
                None => {
                    proof {
                        lemma_configured_fails(settings@, at + 1, settings@.len() as int, neighbors, epsilon);
                    }
                    return Err(PipelineError::Numeric);
                },
            }
        } else if *settings.name_at(at) == for_epsilon {
            match parse_numeric(settings.value_at(at).as_str()) {
                Some(number) => {
                    tolerance = number;
                },
                None => {
                    proof {
                        lemma_configured_fails(settings@, at + 1, settings@.len() as int, neighbors, epsilon);
                    }
                    return Err(PipelineError::Numeric);
                },
            }
        }
        at = at + 1;
    }
    Ok((current, tolerance))
}

/// What is read from settings depends on their names and written values
/// alone.
pub proof fn lemma_configured_by_text(
    one: Seq<(Seq<char>, String)>,
    other: Seq<(Seq<char>, String)>,
    upto: int,
    neighbors: usize,
    epsilon: Numeric,
)
    requires
        settings_text(one) == settings_text(other),
        0 <= upto <= one.len(),
    ensures
        configured(one, upto, neighbors, epsilon) == configured(other, upto, neighbors, epsilon),
    decreases upto,
{
    assert(one.len() == settings_text(one).len());
    assert(other.len() == settings_text(other).len());
    if upto > 0 {
        lemma_configured_by_text(one, other, upto - 1, neighbors, epsilon);
        assert(settings_text(one)[upto - 1] == (one[upto - 1].0, one[upto - 1].1@));
        assert(settings_text(other)[upto - 1] == (other[upto - 1].0, other[upto - 1].1@));
    }
}

/// The settings that a model reports of itself are read back as its
/// number of neighbours and its tolerance.
pub proof fn lemma_reported_settings(
    settings: Seq<(Seq<char>, String)>,
    neighbors: usize,
    epsilon: Numeric,
    first: usize,
    tolerance: Numeric,
)
    requires
        settings_text(settings) == seq![
            ("num_neighbors"@, decimal_digits(neighbors as nat)),
            ("epsilon"@, numeric_text(epsilon)),
        ],
    ensures
        configured(settings, settings.len() as int, first, tolerance) == Ok::<(usize, Numeric), PipelineError>(
            (neighbors, epsilon),
        ),
{
    reveal_strlit("num_neighbors");
    reveal_strlit("epsilon");
    assert("num_neighbors"@.len() != "epsilon"@.len());
    let text = settings_text(settings);
    assert(settings.len() == text.len());
    assert(text[0] == (settings[0].0, settings[0].1@));
    assert(text[1] == (settings[1].0, settings[1].1@));
    crate::text::lemma_count_reads_back(neighbors);
    crate::text::lemma_numeric_reads_back(epsilon);
    assert(configured(settings, 0, first, tolerance) == Ok::<(usize, Numeric), PipelineError>((first, tolerance)));
    assert(configured(settings, 1, first, tolerance) == Ok::<(usize, Numeric), PipelineError>(
        (neighbors, tolerance),
    ));
}

/// Once the reading of settings has failed, it stays failed.
pub proof fn lemma_configured_fails(
    settings: Seq<(Seq<char>, String)>,
    failed: int,
    upto: int,
    neighbors: usize,
    epsilon: Numeric,
)
    requires
        failed <= upto,
        configured(settings, failed, neighbors, epsilon) is Err,
    ensures
        configured(settings, upto, neighbors, epsilon) == configured(settings, failed, neighbors, epsilon),
    decreases upto - failed,
{
    if failed < upto {
        lemma_configured_fails(settings, failed, upto - 1, neighbors, epsilon);
    }
}

/// Whether the references give `sample` a class that lies farther than
/// `epsilon` from the class it has. Without a reference no class is given,
/// which counts as a wrong one.
pub open spec fn misclassified(
    examples: Seq<Seq<Numeric>>,
    sample: Seq<Numeric>,
    label_index: int,
    k: int,
    epsilon: Numeric,
) -> bool {
    examples.len() == 0 || {
        let gap = label_of(examples, sample, label_index, k) - sample[label_index];
        gap > epsilon || -gap > epsilon
    }
}

/// Whether every sample has a place `label_index`.
pub open spec fn all_labelled(samples: Seq<Seq<Numeric>>, label_index: int) -> bool {
    forall|i: int| 0 <= i < samples.len() ==> 0 <= label_index < (#[trigger] samples[i]).len()
}

/// Why `training` cannot be trained on, if it cannot: it is empty
/// (`EmptyInput`), or one of its samples has no place `label_index`
/// (`OutOfBounds`).
pub open spec fn training_fault(training: Seq<Seq<Numeric>>, label_index: int) -> Option<PipelineError> {
    if training.len() == 0 {
        Some(PipelineError::EmptyInput)
    } else if !all_labelled(training, label_index) {
        Some(PipelineError::OutOfBounds)
    } else {
        None
    }
}

/// Looks for what stands in the way of training on `training_values`.
pub fn check_training(training_values: &[Vec<Numeric>], target_value_idx: usize) -> (fault: Option<PipelineError>)
    ensures
        fault == training_fault(examples_view(training_values@), target_value_idx as int),
{
    if training_values.len() == 0 {
        return Some(PipelineError::EmptyInput);
    }
    let mut at: usize = 0;
    while at < training_values.len()
        invariant
            at <= training_values@.len(),
            forall|i: int|
                0 <= i < at ==> target_value_idx < (#[trigger] examples_view(training_values@)[i]).len(),
        decreases training_values@.len() - at,
    {
        if target_value_idx >= training_values[at].len() {
            assert(examples_view(training_values@)[at as int] == training_values@[at as int]@);
            return Some(PipelineError::OutOfBounds);
        }
        assert(examples_view(training_values@)[at as int] == training_values@[at as int]@);
        at = at + 1;
    }
    None
}

/// A copy of `sample`.
pub fn copy_sample(sample: &Vec<Numeric>) -> (copy: Vec<Numeric>)
    ensures
        copy@ == sample@,
{
    let mut copy: Vec<Numeric> = Vec::new();
    let mut at: usize = 0;
    while at < sample.len()
        invariant
            at <= sample@.len(),
            copy@ == sample@.take(at as int),
        decreases sample@.len() - at,
    {
        copy.push(sample[at]);
        at = at + 1;
        assert(copy@ =~= sample@.take(at as int));
    }
    assert(sample@.take(at as int) == sample@);
    copy
}

/// Calls `sort` of the slice of `distances`, which puts the pairs in rising
/// order, a pair before another by its first part and then by its second:
/// afterwards the vector holds the same pairs, each as often as before, and
/// no pair stands before one that comes earlier in that order.
#[verifier::external_body]
pub(crate) fn sort_neighbors(distances: &mut Vec<(u128, usize)>)
    ensures
        final(distances)@.to_multiset() == old(distances)@.to_multiset(),
        sorted_by(final(distances)@, neighbor_order()),
{
    distances.sort();
}

impl KNearestNeighbor {
    /// The references as sequences.
    pub open spec fn examples(&self) -> Seq<Seq<Numeric>> {
        examples_view(self.label_examples@)
    }

    /// Whether the model can answer: it has a reference, at least one
    /// neighbour votes, and every reference has a class.
    pub open spec fn is_usable(&self) -> bool {
        &&& self.num_neighbors >= 1
        &&& self.label_examples@.len() >= 1
        &&& forall|i: int|
            0 <= i < self.label_examples@.len() ==> self.label_index < (#[trigger] self.label_examples@[i])@.len()
    }

    /// The references from the nearest to `sample` to the farthest, each with
    /// its distance and its place among the references.
    pub fn neighbors(&self, sample: &[Numeric]) -> (near: Vec<(u128, usize)>)
        ensures
            near@ == neighbors_of(self.examples(), sample@, self.label_index as int),
    {
        let mut distances: Vec<(u128, usize)> = Vec::new();
        let mut i: usize = 0;
        while i < self.label_examples.len()
            invariant
                i <= self.label_examples@.len(),
                distances@ == distances_of(self.examples(), sample@, self.label_index as int).take(i as int),
            decreases self.label_examples@.len() - i,
        {
            let d = distance(sample, self.label_examples[i].as_slice(), self.label_index);
            distances.push((d, i));
            i = i + 1;
            proof {
                assert(self.examples()[i - 1] == self.label_examples@[i - 1]@);
                assert(distances@ =~= distances_of(self.examples(), sample@, self.label_index as int).take(
                    i as int,
                ));
            }
        }
        let ghost all = distances_of(self.examples(), sample@, self.label_index as int);
        proof {
            assert(distances@ =~= all);
        }
        sort_neighbors(&mut distances);
        proof {
            lemma_neighbor_order_total();
            all.lemma_sort_by_ensures(neighbor_order());
            lemma_sorted_unique(distances@, all.sort_by(neighbor_order()), neighbor_order());
        }
        distances
    }

    /// The `num_neighbors` nearest references to `sample`, nearest first,
    /// each as its place among the references and its distance.
    pub fn nearest_neighbors(&self, sample: &[Numeric]) -> (near: Vec<(usize, u128)>)
        ensures
            near@.len() == voters(self.examples(), self.num_neighbors as int),
            forall|j: int|
                0 <= j < near@.len() ==> (#[trigger] near@[j]).0 == neighbors_of(
                    self.examples(),
                    sample@,
                    self.label_index as int,
                )[j].1 && near@[j].1 == neighbors_of(self.examples(), sample@, self.label_index as int)[j].0,
    {
        let all = self.neighbors(sample);
        let count = self.label_examples.len();
        proof {
            assert(self.examples().len() == count);
            lemma_neighbors(self.examples(), sample@, self.label_index as int);
        }
        let mut near: Vec<(usize, u128)> = Vec::new();
        let mut j: usize = 0;
        while j < all.len() && j < self.num_neighbors
            invariant
                j <= all@.len(),
                j <= self.num_neighbors,
                near@.len() == j,
                forall|i: int| 0 <= i < j ==> (#[trigger] near@[i]).0 == all@[i].1 && near@[i].1 == all@[i].0,
            decreases all@.len() - j,
        {
            near.push((all[j].1, all[j].0));
            j = j + 1;
        }
        near
    }

    /// The class of `sample`: the one that most of the `num_neighbors`
    /// nearest references have; of several such classes the one of the
    /// nearest reference.
    pub fn label(&self, sample: &[Numeric]) -> (class: Numeric)
        requires
            self.is_usable(),
        ensures
            class == label_of(self.examples(), sample@, self.label_index as int, self.num_neighbors as int),
    {
        let all = self.neighbors(sample);
        let count = self.label_examples.len();
        proof {
            assert(self.examples().len() == count);
            lemma_neighbors(self.examples(), sample@, self.label_index as int);
        }
        let mut votes: Vec<Numeric> = Vec::new();
        let mut j: usize = 0;
        while j < all.len() && j < self.num_neighbors
            invariant
                self.is_usable(),
                j <= all@.len(),
                j <= self.num_neighbors,
                all@ == neighbors_of(self.examples(), sample@, self.label_index as int),
                all@.len() == self.examples().len(),
                forall|i: int| 0 <= i < all@.len() ==> (#[trigger] all@[i]).1 < self.examples().len(),
                votes@ == votes_of(
                    self.examples(),
                    sample@,
                    self.label_index as int,
                    self.num_neighbors as int,
                ).take(j as int),
            decreases all@.len() - j,
        {
            let place = all[j].1;
            votes.push(self.label_examples[place][self.label_index]);
            j = j + 1;
            proof {
                assert(self.examples()[place as int] == self.label_examples@[place as int]@);
                assert(votes@ =~= votes_of(
                    self.examples(),
                    sample@,
                    self.label_index as int,
                    self.num_neighbors as int,
                ).take(j as int));
            }
        }
        proof {
            assert(votes@ =~= votes_of(
                self.examples(),
                sample@,
                self.label_index as int,
                self.num_neighbors as int,
            ));
        }
        mode(&votes)
    }

    /// Whether the references give `sample` a class that lies farther than
    /// `epsilon` from the class it has.
    pub fn misjudges(&self, sample: &[Numeric], epsilon: Numeric) -> (wrong: bool)
        requires
            self.num_neighbors >= 1,
            all_labelled(self.examples(), self.label_index as int),
            self.label_index < sample@.len(),
        ensures
            wrong == misclassified(
                self.examples(),
                sample@,
                self.label_index as int,
                self.num_neighbors as int,
                epsilon,
            ),
    {
        if self.label_examples.len() == 0 {
            assert(self.examples().len() == 0);
            return true;
        }
        proof {
            assert(self.examples().len() == self.label_examples@.len());
            assert forall|i: int| 0 <= i < self.label_examples@.len() implies self.label_index < (
            #[trigger] self.label_examples@[i])@.len() by {
                assert(self.examples()[i] == self.label_examples@[i]@);
            }
        }
        let class = self.label(sample);
        let gap: i128 = class as i128 - sample[self.label_index] as i128;
        gap > epsilon as i128 || -gap > epsilon as i128
    }

    /// Reads `hyperparameters` in order: an entry named `num_neighbors` sets
    /// the number of neighbours, one named `epsilon` the tolerance. Where a
    /// value writes no number, the model stays as it was.
    pub fn set_hyperparameters(&mut self, hyperparameters: &Dictionary<String>) -> (done: Result<(), PipelineError>)
        ensures
            match configured(
                hyperparameters@,
                hyperparameters@.len() as int,
                old(self).num_neighbors,
                old(self).epsilon,
            ) {
                Ok(read) => done is Ok && final(self).num_neighbors == read.0 && final(self).epsilon == read.1,
                Err(error) => done == Err::<(), PipelineError>(error) && final(self).num_neighbors == old(
                    self,
                ).num_neighbors && final(self).epsilon == old(self).epsilon,
            },
            final(self).label_examples == old(self).label_examples,
            final(self).label_index == old(self).label_index,
    {
        match read_settings(hyperparameters, self.num_neighbors, self.epsilon) {
            Ok(read) => {
                self.num_neighbors = read.0;
                self.epsilon = read.1;
                Ok(())
            },
            Err(error) => Err(error),
        }
    }

    /// The settings of the model as text: the number of neighbours under
    /// `num_neighbors` and the tolerance under `epsilon`.
    pub fn get_hyperparameters(&self) -> (settings: Dictionary<String>)
        ensures
            settings_text(settings@) == seq![
                ("num_neighbors"@, decimal_digits(self.num_neighbors as nat)),
                ("epsilon"@, numeric_text(self.epsilon)),
            ],
    {
        let mut settings: Dictionary<String> = Dictionary::new();
        settings.insert("num_neighbors".to_owned(), count_to_string(self.num_neighbors));
        proof {
            reveal_strlit("num_neighbors");
            reveal_strlit("epsilon");
            assert("num_neighbors"@.len() != "epsilon"@.len());
        }
        settings.insert("epsilon".to_owned(), numeric_to_string(self.epsilon));
        assert(settings_text(settings@) =~= seq![
            ("num_neighbors"@, decimal_digits(self.num_neighbors as nat)),
            ("epsilon"@, numeric_text(self.epsilon)),
        ]);
        settings
    }

    /// The name of this kind of model.
    pub fn type_id(&self) -> (name: &'static str)
        ensures
            name@ == "KNearestNeighbor"@,
    {
        "KNearestNeighbor"
    }
}

} // verus!

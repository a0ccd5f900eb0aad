//! Grid search: every way of picking one candidate value for each name.

use crate::dictionary::Dictionary;
use crate::models::knn::settings_text;
use crate::models::ModelBuilder;
use crate::text::{numeric_text, numeric_to_string};
use crate::types::{Numeric, PipelineError};
use itertools::Itertools;
use vstd::prelude::*;

verus! {

/// The product of the lengths from place `from` on.
pub open spec fn suffix_product(lengths: Seq<nat>, from: int) -> nat
    decreases lengths.len() - from,
{
    if from >= lengths.len() {
        1
    } else {
        lengths[from] * suffix_product(lengths, from + 1)
    }
}

/// The lengths of the lists.
pub open spec fn lengths_of(lists: Seq<Seq<Numeric>>) -> Seq<nat> {
    lists.map_values(|list: Seq<Numeric>| list.len())
}

/// The number of ways of picking one member of each list.
pub open spec fn combination_count(lists: Seq<Seq<Numeric>>) -> nat {
    suffix_product(lengths_of(lists), 0)
}

/// The place in list `j` of what combination `c` picks from it: the
/// combinations run through the last list fastest.
pub open spec fn choice(lists: Seq<Seq<Numeric>>, c: int, j: int) -> int {
    (c / (suffix_product(lengths_of(lists), j + 1) as int)) % (lists[j].len() as int)
}

/// The ways of picking one member of each list, in the order of a counter
/// whose last digit turns fastest.
pub open spec fn product_of(lists: Seq<Seq<Numeric>>) -> Seq<Seq<Numeric>> {
    Seq::new(
        combination_count(lists),
        |c: int| Seq::new(lists.len(), |j: int| lists[j][choice(lists, c, j)]),
    )
}

/// The lists as sequences.
pub open spec fn lists_view(lists: Seq<Vec<Numeric>>) -> Seq<Seq<Numeric>> {
    lists.map_values(|list: Vec<Numeric>| list@)
}

/// Calls `Itertools::multi_cartesian_product` on the lists and collects
/// what it yields: every way of picking one member of each list, the picks
/// in the order of the lists, the ways in the order in which the last list
/// is run through fastest. With no list at all the crate yields nothing, and
/// a product too large to hold is never finished: both are left out.
#[verifier::external_body]
fn multi_cartesian_product(lists: &Vec<Vec<Numeric>>) -> (product: Vec<Vec<Numeric>>)
    requires
        lists@.len() > 0,
        combination_count(lists_view(lists@)) <= usize::MAX,
    ensures
        lists_view(product@) == product_of(lists_view(lists@)),
{
    lists.iter().cloned().multi_cartesian_product().collect()
}

/// With lists that all have a member, no product of lengths from a place on
/// is larger than the product of all.
pub proof fn lemma_suffix_product_grows(lengths: Seq<nat>, from: int)
    requires
        0 <= from <= lengths.len(),
        forall|j: int| 0 <= j < lengths.len() ==> lengths[j] >= 1,
    ensures
        1 <= suffix_product(lengths, from) <= suffix_product(lengths, 0),
    decreases from,
{
    lemma_suffix_product_positive(lengths, from);
    if from > 0 {
        lemma_suffix_product_grows(lengths, from - 1);
        lemma_suffix_product_positive(lengths, from - 1);
        let here = lengths[from - 1];
        let rest = suffix_product(lengths, from);
        assert(here * rest >= rest) by (nonlinear_arith)
            requires
                here >= 1,
                rest >= 0,
        ;
    }
}

/// With lists that all have a member, every product of lengths is at least one.
pub proof fn lemma_suffix_product_positive(lengths: Seq<nat>, from: int)
    requires
        0 <= from <= lengths.len(),
        forall|j: int| 0 <= j < lengths.len() ==> lengths[j] >= 1,
    ensures
        suffix_product(lengths, from) >= 1,
    decreases lengths.len() - from,
{
    if from < lengths.len() {
        lemma_suffix_product_positive(lengths, from + 1);
        let here = lengths[from];
        let rest = suffix_product(lengths, from + 1);
        assert(here * rest >= 1) by (nonlinear_arith)
            requires
                here >= 1,
                rest >= 1,
        ;
    }
}

/// With an empty list among them, the lists have no combination.
pub proof fn lemma_suffix_product_zero(lengths: Seq<nat>, from: int, empty: int)
    requires
        0 <= from <= empty < lengths.len(),
        lengths[empty] == 0,
    ensures
        suffix_product(lengths, from) == 0,
    decreases empty - from,
{
    if from < empty {
        lemma_suffix_product_zero(lengths, from + 1, empty);
        assert(lengths[from] * 0 == 0) by (nonlinear_arith);
    } else {
        assert(0 * suffix_product(lengths, from + 1) == 0) by (nonlinear_arith);
    }
}

/// The number of combinations of the lists, if a `usize` holds it.
pub fn count_combinations(lists: &Vec<Vec<Numeric>>) -> (count: Option<usize>)
    ensures
        count is Some <==> combination_count(lists_view(lists@)) <= usize::MAX,
        count is Some ==> count.unwrap() == combination_count(lists_view(lists@)),
{
    let ghost lengths = lengths_of(lists_view(lists@));
    let mut at: usize = 0;
    while at < lists.len()
        invariant
            at <= lists@.len(),
            lengths == lengths_of(lists_view(lists@)),
            forall|j: int| 0 <= j < at ==> lengths[j] >= 1,
        decreases lists@.len() - at,
    {
        if lists[at].len() == 0 {
            proof {
                assert(lengths[at as int] == lists@[at as int]@.len());
                lemma_suffix_product_zero(lengths, 0, at as int);
            }
            return Some(0);
        }
        assert(lengths[at as int] == lists@[at as int]@.len());
        at = at + 1;
    }
    let mut count: usize = 1;
    let mut from: usize = lists.len();
    while from > 0
        invariant
            from <= lists@.len(),
            lengths == lengths_of(lists_view(lists@)),
            lengths.len() == lists@.len(),
            forall|j: int| 0 <= j < lengths.len() ==> lengths[j] >= 1,
            count == suffix_product(lengths, from as int),
        decreases from,
    {
        assert(lengths[from - 1] == lists@[from - 1]@.len());
        match count.checked_mul(lists[from - 1].len()) {
            Some(more) => {
                assert(lengths[from - 1] * suffix_product(lengths, from as int) == suffix_product(
                    lengths,
                    from as int,
                ) * lengths[from - 1]) by (nonlinear_arith);
                count = more;
            },
            None => {
                proof {
                    lemma_suffix_product_grows(lengths, from - 1);
                    assert(lengths[from - 1] * suffix_product(lengths, from as int) == suffix_product(
                        lengths,
                        from as int,
                    ) * lengths[from - 1]) by (nonlinear_arith);
                }
                return None;
            },
        }
        from = from - 1;
    }
    Some(count)
}

/// The candidate lists of the grid, in the order of its names.
pub open spec fn candidates_of(grid: Seq<(Seq<char>, Vec<Numeric>)>) -> Seq<Seq<Numeric>> {
    grid.map_values(|entry: (Seq<char>, Vec<Numeric>)| entry.1@)
}

/// Combination `c` of the grid: every name of the grid, in order, with the
/// candidate value that the combination picks for it, written as text.
pub open spec fn combination_of(grid: Seq<(Seq<char>, Vec<Numeric>)>, c: int) -> Seq<(Seq<char>, Seq<char>)> {
    Seq::new(
        grid.len(),
        |j: int| (grid[j].0, numeric_text(candidates_of(grid)[j][choice(candidates_of(grid), c, j)])),
    )
}

/// Whether `combinations` are the combinations of the grid, all of them
/// and in order: a grid without names has the one combination that sets
/// nothing.
pub open spec fn is_grid_of(combinations: Seq<Dictionary<String>>, grid: Seq<(Seq<char>, Vec<Numeric>)>) -> bool {
    &&& combinations.len() == combination_count(candidates_of(grid))
    &&& forall|c: int|
        0 <= c < combinations.len() ==> settings_text((#[trigger] combinations[c])@) == combination_of(grid, c)
}

/// In every combination of a grid each name of the grid has a value.
pub proof fn lemma_combination_has_names(
    combination: Dictionary<String>,
    grid: Seq<(Seq<char>, Vec<Numeric>)>,
    c: int,
    j: int,
)
    requires
        settings_text(combination@) == combination_of(grid, c),
        0 <= j < grid.len(),
    ensures
        combination.lookup(grid[j].0) is Some,
{
    assert(combination@.len() == settings_text(combination@).len());
    assert(settings_text(combination@)[j] == (combination@[j].0, combination@[j].1@));
    lemma_entry_found(combination@, grid[j].0, j, combination@.len() as int);
}

/// A name that heads one of the first `upto` entries is found among them.
pub proof fn lemma_entry_found<V>(entries: Seq<(Seq<char>, V)>, name: Seq<char>, at: int, upto: int)
    requires
        0 <= at < upto <= entries.len(),
        entries[at].0 == name,
    ensures
        crate::dictionary::last_entry(entries, name, upto) is Some,
    decreases upto,
{
    if entries[upto - 1].0 != name {
        lemma_entry_found(entries, name, at, upto - 1);
    }
}

/// Whether `picks` names one place in each of the lists.
pub open spec fn is_pick(lists: Seq<Seq<Numeric>>, picks: Seq<int>) -> bool {
    &&& picks.len() == lists.len()
    &&& forall|j: int| 0 <= j < lists.len() ==> 0 <= #[trigger] picks[j] < lists[j].len()
}

/// The places that combination `c` picks, one in each list.
pub open spec fn picks_of(lists: Seq<Seq<Numeric>>, c: int) -> Seq<int> {
    Seq::new(lists.len(), |j: int| choice(lists, c, j))
}

/// The number that the picks from place `from` on write, the place of each
/// list being a digit and the length of the list its base.
pub open spec fn rank_from(lengths: Seq<nat>, picks: Seq<int>, from: int) -> int
    decreases lengths.len() - from,
{
    if from >= lengths.len() {
        0
    } else {
        picks[from] * suffix_product(lengths, from + 1) + rank_from(lengths, picks, from + 1)
    }
}

/// The number that the picks before place `upto` write.
pub open spec fn rank_before(lengths: Seq<nat>, picks: Seq<int>, upto: int) -> int
    decreases upto,
{
    if upto <= 0 {
        0
    } else {
        rank_before(lengths, picks, upto - 1) * lengths[upto - 1] + picks[upto - 1]
    }
}

/// The number of the combination that picks the places `picks`.
pub open spec fn combination_picking(lists: Seq<Seq<Numeric>>, picks: Seq<int>) -> int {
    rank_from(lengths_of(lists), picks, 0)
}

/// The picks from a place on write a number below the product of the
/// lengths from that place on.
pub proof fn lemma_rank_within(lengths: Seq<nat>, picks: Seq<int>, from: int)
    requires
        0 <= from <= lengths.len(),
        picks.len() == lengths.len(),
        forall|j: int| 0 <= j < lengths.len() ==> 0 <= #[trigger] picks[j] < lengths[j],
    ensures
        0 <= rank_from(lengths, picks, from) < suffix_product(lengths, from),
    decreases lengths.len() - from,
{
    if from < lengths.len() {
        lemma_rank_within(lengths, picks, from + 1);
        let pick = picks[from];
        let length = lengths[from] as int;
        let rest = suffix_product(lengths, from + 1) as int;
        let low = rank_from(lengths, picks, from + 1);
        assert(0 <= pick * rest + low < length * rest) by (nonlinear_arith)
            requires
                0 <= pick < length,
                0 <= low < rest,
        ;
    }
}

/// The number that all the picks write is made of the number that the
/// picks before a place write and the number that the others write.
pub proof fn lemma_rank_parts(lengths: Seq<nat>, picks: Seq<int>, upto: int)
    requires
        0 <= upto <= lengths.len(),
        picks.len() == lengths.len(),
        forall|j: int| 0 <= j < lengths.len() ==> 0 <= #[trigger] picks[j] < lengths[j],
    ensures
        rank_before(lengths, picks, upto) >= 0,
        rank_from(lengths, picks, 0) == rank_before(lengths, picks, upto) * suffix_product(lengths, upto)
            + rank_from(lengths, picks, upto),
    decreases upto,
{
    if upto > 0 {
        lemma_rank_parts(lengths, picks, upto - 1);
        let high = rank_before(lengths, picks, upto - 1);
        let pick = picks[upto - 1];
        let length = lengths[upto - 1] as int;
        let rest = suffix_product(lengths, upto) as int;
        let low = rank_from(lengths, picks, upto);
        assert(suffix_product(lengths, upto - 1) == length * rest);
        assert(rank_from(lengths, picks, upto - 1) == pick * rest + low);
        assert(high * (length * rest) + (pick * rest + low) == (high * length + pick) * rest + low)
            by (nonlinear_arith);
        assert(high * length + pick >= 0) by (nonlinear_arith)
            requires
                high >= 0,
                length >= 0,
                pick >= 0,
        ;
    } else {
        assert(0 * suffix_product(lengths, 0) == 0) by (nonlinear_arith);
    }
}

/// What is left of a number below the product of all lengths, when it is
/// divided by the product of the lengths from a place on, is the number
/// that its own digits from that place on write.
pub proof fn lemma_rank_of_digits(lists: Seq<Seq<Numeric>>, c: int, from: int)
    requires
        0 <= c,
        0 <= from <= lists.len(),
        forall|j: int| 0 <= j < lists.len() ==> (#[trigger] lists[j]).len() >= 1,
    ensures
        c % (suffix_product(lengths_of(lists), from) as int) == rank_from(
            lengths_of(lists),
            picks_of(lists, c),
            from,
        ),
    decreases lists.len() - from,
{
    let lengths = lengths_of(lists);
    if from < lists.len() {
        lemma_rank_of_digits(lists, c, from + 1);
        assert forall|j: int| 0 <= j < lengths.len() implies lengths[j] >= 1 by {
            assert(lists[j].len() >= 1);
        }
        lemma_suffix_product_positive(lengths, from + 1);
        let length = lengths[from] as int;
        let rest = suffix_product(lengths, from + 1) as int;
        assert(length == lists[from].len());
        vstd::arithmetic::div_mod::lemma_mod_breakdown(c, rest, length);
        assert(suffix_product(lengths, from) == length * rest);
        assert(length * rest == rest * length) by (nonlinear_arith);
        assert(picks_of(lists, c)[from] == (c / rest) % length);
        assert(rest * ((c / rest) % length) == ((c / rest) % length) * rest) by (nonlinear_arith);
    }
}

/// Every combination picks one place in each list.
pub proof fn lemma_combination_is_pick(lists: Seq<Seq<Numeric>>, c: int)
    requires
        0 <= c < combination_count(lists),
    ensures
        is_pick(lists, picks_of(lists, c)),
{
    let lengths = lengths_of(lists);
    assert forall|j: int| 0 <= j < lists.len() implies 0 <= #[trigger] picks_of(lists, c)[j] < lists[j].len() by {
        if lists[j].len() == 0 {
            assert(lengths[j] == 0);
            lemma_suffix_product_zero(lengths, 0, j);
        }
        let length = lists[j].len() as int;
        let rest = suffix_product(lengths, j + 1) as int;
        vstd::arithmetic::div_mod::lemma_mod_bound(c / rest, length);
    }
}

/// Every way of picking one place in each list is taken by exactly one
/// combination: the combination of the number that the picks write takes
/// it, and no other combination does.
pub proof fn lemma_every_pick_once(lists: Seq<Seq<Numeric>>, picks: Seq<int>)
    requires
        is_pick(lists, picks),
    ensures
        0 <= combination_picking(lists, picks) < combination_count(lists),
        picks_of(lists, combination_picking(lists, picks)) == picks,
        forall|c: int|
            0 <= c < combination_count(lists) && #[trigger] picks_of(lists, c) == picks ==> c
                == combination_picking(lists, picks),
{
    let lengths = lengths_of(lists);
    let rank = combination_picking(lists, picks);
    assert forall|j: int| 0 <= j < lengths.len() implies 0 <= #[trigger] picks[j] < lengths[j] by {
        assert(lengths[j] == lists[j].len());
    }
    assert forall|j: int| 0 <= j < lists.len() implies (#[trigger] lists[j]).len() >= 1 by {
        assert(0 <= picks[j] < lists[j].len());
    }
    lemma_rank_within(lengths, picks, 0);
    assert forall|j: int| 0 <= j < lists.len() implies choice(lists, rank, j) == picks[j] by {
        lemma_rank_parts(lengths, picks, j + 1);
        lemma_rank_within(lengths, picks, j + 1);
        let high = rank_before(lengths, picks, j);
        let length = lengths[j] as int;
        let rest = suffix_product(lengths, j + 1) as int;
        lemma_rank_parts(lengths, picks, j);
        vstd::arithmetic::div_mod::lemma_fundamental_div_mod_converse(
            rank,
            rest,
            rank_before(lengths, picks, j + 1),
            rank_from(lengths, picks, j + 1),
        );
        vstd::arithmetic::div_mod::lemma_fundamental_div_mod_converse(
            rank_before(lengths, picks, j + 1),
            length,
            high,
            picks[j],
        );
    }
    assert(picks_of(lists, rank) =~= picks);
    assert forall|c: int| 0 <= c < combination_count(lists) && #[trigger] picks_of(lists, c) == picks implies c
        == rank by {
        lemma_rank_of_digits(lists, c, 0);
        vstd::arithmetic::div_mod::lemma_small_mod(c as nat, combination_count(lists));
    }
}

/// Every way of picking one candidate for each name of the grid is set by
/// exactly one combination of the grid, which gives each name the text of
/// the candidate picked for it.
pub proof fn lemma_every_setting_once(grid: Seq<(Seq<char>, Vec<Numeric>)>, picks: Seq<int>)
    requires
        is_pick(candidates_of(grid), picks),
    ensures
        0 <= combination_picking(candidates_of(grid), picks) < combination_count(candidates_of(grid)),
        forall|j: int|
            0 <= j < grid.len() ==> #[trigger] combination_of(
                grid,
                combination_picking(candidates_of(grid), picks),
            )[j] == (grid[j].0, numeric_text(grid[j].1@[picks[j]])),
        forall|c: int|
            0 <= c < combination_count(candidates_of(grid)) && #[trigger] picks_of(candidates_of(grid), c)
                == picks ==> c == combination_picking(candidates_of(grid), picks),
{
    let lists = candidates_of(grid);
    let rank = combination_picking(lists, picks);
    lemma_every_pick_once(lists, picks);
    assert forall|j: int| 0 <= j < grid.len() implies #[trigger] combination_of(grid, rank)[j] == (
        grid[j].0,
        numeric_text(grid[j].1@[picks[j]]),
    ) by {
        assert(picks_of(lists, rank)[j] == choice(lists, rank, j));
        assert(lists[j] == grid[j].1@);
    }
}

/// The combinations of the grid: every way of picking one candidate value
/// for each name, each value written as text, in the order of a counter over
/// the names whose last digit turns fastest.
///
/// More combinations than a `usize` counts are `InvalidConfig`.
pub fn get_hyperparameter_combinations(tuning_parameters: &Dictionary<Vec<Numeric>>) -> (combinations: Result<
    Vec<Dictionary<String>>,
    PipelineError,
>)
    ensures
        combinations is Ok <==> combination_count(candidates_of(tuning_parameters@)) <= usize::MAX,
        combinations is Err ==> combinations == Err::<Vec<Dictionary<String>>, PipelineError>(
            PipelineError::InvalidConfig,
        ),
        combinations is Ok ==> is_grid_of(combinations.unwrap()@, tuning_parameters@),
{
    let ghost grid = tuning_parameters@;
    let names = tuning_parameters.len();
    let mut lists: Vec<Vec<Numeric>> = Vec::new();
    let mut at: usize = 0;
    while at < names
        invariant
            at <= names,
            names == grid.len(),
            grid == tuning_parameters@,
            lists@.len() == at,
            forall|j: int| 0 <= j < at ==> (#[trigger] lists@[j])@ == grid[j].1@,
        decreases names - at,
    {
        let candidates = tuning_parameters.value_at(at);
        let mut list: Vec<Numeric> = Vec::new();
        let mut i: usize = 0;
        while i < candidates.len()
            invariant
                i <= candidates@.len(),
                list@ == candidates@.take(i as int),
            decreases candidates@.len() - i,
        {
            list.push(candidates[i]);
            i = i + 1;
            assert(list@ =~= candidates@.take(i as int));
        }
        assert(candidates@.take(i as int) == candidates@);
        lists.push(list);
        at = at + 1;
    }
    proof {
        assert(lists_view(lists@) =~= candidates_of(grid));
    }
    if names == 0 {
        let mut combinations: Vec<Dictionary<String>> = Vec::new();
        combinations.push(Dictionary::new());
        proof {
            assert(suffix_product(lengths_of(candidates_of(grid)), 0) == 1);
            assert(settings_text(combinations@[0]@) =~= combination_of(grid, 0));
        }
        return Ok(combinations);
    }
    match count_combinations(&lists) {
        Some(_) => {},
        None => {
            return Err(PipelineError::InvalidConfig);
        },
    }
    let product = multi_cartesian_product(&lists);
    let ghost picks = product_of(candidates_of(grid));
    proof {
        assert(lists_view(product@).len() == product@.len());
    }
    let mut combinations: Vec<Dictionary<String>> = Vec::new();
    let mut c: usize = 0;
    while c < product.len()
        invariant
            c <= product@.len(),
            names == grid.len(),
            grid == tuning_parameters@,
            picks == product_of(candidates_of(grid)),
            lists_view(product@) == picks,
            product@.len() == combination_count(candidates_of(grid)),
            combinations@.len() == c,
            forall|b: int|
                0 <= b < c ==> settings_text((#[trigger] combinations@[b])@) == combination_of(grid, b),
        decreases product@.len() - c,
    {
        let pick = &product[c];
        proof {
            assert(lists_view(product@)[c as int] == pick@);
            assert(pick@.len() == names);
        }
        let mut settings: Dictionary<String> = Dictionary::new();
        let mut j: usize = 0;
        while j < names
            invariant
                j <= names,
                names == grid.len(),
                grid == tuning_parameters@,
                c < combination_count(candidates_of(grid)),
                pick@ == product_of(candidates_of(grid))[c as int],
                pick@.len() == names,
                settings_text(settings@) == combination_of(grid, c as int).take(j as int),
            decreases names - j,
        {
            let name = tuning_parameters.name_at(j).clone();
            let value = numeric_to_string(pick[j]);
            let ghost before = settings@;
            proof {
                assert(settings_text(before).len() == before.len());
                assert(before.len() == j);
                assert(tuning_parameters.has_unique_names());
                assert forall|i: int| 0 <= i < before.len() implies (#[trigger] before[i]).0 != name@ by {
                    assert(settings_text(before)[i] == (before[i].0, before[i].1@));
                    assert(combination_of(grid, c as int).take(j as int)[i] == combination_of(grid, c as int)[i]);
                    assert(combination_of(grid, c as int)[i].0 == grid[i].0);
                    assert(grid[i].0 != grid[j as int].0);
                }
            }
            settings.insert(name, value);
            proof {
                let lists = candidates_of(grid);
                assert(product_of(lists)[c as int][j as int] == lists[j as int][choice(lists, c as int, j as int)]);
                assert(settings_text(before).len() == j);
                assert(settings_text(settings@) =~= settings_text(before).push((name@, value@)));
                assert(combination_of(grid, c as int)[j as int] == (name@, value@));
                assert(settings_text(before).push((name@, value@)) =~= combination_of(grid, c as int).take(
                    j + 1,
                ));
            }
            j = j + 1;
        }
        proof {
            assert(combination_of(grid, c as int).take(names as int) == combination_of(grid, c as int));
        }
        combinations.push(settings);
        c = c + 1;
    }
    Ok(combinations)
}

/// Hands every combination of the grid to the trainer, one after the
/// other, so that the trainer is left with the settings of the last. No
/// model is scored, and the result is zero.
pub fn fit(tuning_parameters: &Dictionary<Vec<Numeric>>, model_builder: &mut ModelBuilder) -> (score: Result<
    Numeric,
    PipelineError,
>)
    ensures
        final(model_builder).defaults() == old(model_builder).defaults(),
        combination_count(candidates_of(tuning_parameters@)) > usize::MAX ==> (score matches Err(error) && error
            == PipelineError::InvalidConfig) && *final(model_builder) == *old(model_builder),
        combination_count(candidates_of(tuning_parameters@)) <= usize::MAX ==> score == Ok::<
            Numeric,
            PipelineError,
        >(0),
        0 < combination_count(candidates_of(tuning_parameters@)) <= usize::MAX && !old(
            model_builder,
        ).is_baseline() ==> final(model_builder).settings() is Some && settings_text(
            final(model_builder).settings().unwrap(),
        ) == combination_of(
            tuning_parameters@,
            combination_count(candidates_of(tuning_parameters@)) - 1,
        ),
        combination_count(candidates_of(tuning_parameters@)) == 0 || old(model_builder).is_baseline()
            ==> final(model_builder).settings() == old(model_builder).settings(),
{
    let combinations = match get_hyperparameter_combinations(tuning_parameters) {
        Ok(combinations) => combinations,
        Err(error) => {
            return Err(error);
        },
    };
    let mut at: usize = 0;
    while at < combinations.len()
        invariant
            at <= combinations@.len(),
            is_grid_of(combinations@, tuning_parameters@),
            model_builder.defaults() == old(model_builder).defaults(),
            model_builder.is_baseline() == old(model_builder).is_baseline(),
            at == 0 || model_builder.is_baseline() ==> model_builder.settings() == old(model_builder).settings(),
            at > 0 && !model_builder.is_baseline() ==> model_builder.settings() is Some && settings_text(
                model_builder.settings().unwrap(),
            ) == combination_of(tuning_parameters@, at - 1),
        decreases combinations@.len() - at,
    {
        let ghost before = *model_builder;
        match model_builder.with_hyperparameters(&combinations[at]) {
            Ok(()) => {},
            Err(error) => {
                return Err(error);
            },
        }
        proof {
            assert(model_builder.defaults().0 == before.defaults().0);
        }
        at = at + 1;
    }
    Ok(0)
}

} // verus!

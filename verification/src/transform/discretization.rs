//! Discretisation into bins of equal frequency: the values are put in the
//! order of their sizes and cut into runs of one length, and every value of
//! a run gives way to the mean of the run.

use crate::data::column::Column;
use crate::dictionary::Dictionary;
use crate::models::knn::{lemma_neighbor_order_total, lemma_sorted_places, neighbor_order, sort_neighbors};
use crate::models::null::{mean, mean_of};
use crate::types::{Numeric, PipelineError, NUMERIC_SCALE};
use vstd::prelude::*;
use vstd::seq_lib::lemma_sorted_unique;

verus! {

/// The transform that puts values into bins of equal frequency.
pub struct EqualFrequencyDiscretization;

/// The size of `value`, whatever its sign.
pub open spec fn size_of(value: Numeric) -> int {
    if value < 0 {
        -value
    } else {
        value as int
    }
}

/// Every value as the pair of its size and its place.
pub open spec fn sized(values: Seq<Numeric>) -> Seq<(u128, usize)> {
    Seq::new(values.len(), |i: int| (size_of(values[i]) as u128, i as usize))
}

/// The places of the values from the smallest size to the largest, each
/// with the size; of two values of one size the earlier comes first.
pub open spec fn by_size(values: Seq<Numeric>) -> Seq<(u128, usize)> {
    sized(values).sort_by(neighbor_order())
}

/// The values at the places from `from` up to `to` of the order of sizes.
pub open spec fn run_values(values: Seq<Numeric>, from: int, to: int) -> Seq<Numeric> {
    Seq::new((to - from) as nat, |j: int| values[by_size(values)[from + j].1 as int])
}

/// The mean of the run from `from` up to `to` of the order of sizes.
pub open spec fn run_mean(values: Seq<Numeric>, from: int, to: int) -> Numeric {
    mean_of(run_values(values, from, to)) as Numeric
}

/// What the value at place `p` of the order of sizes gives way to among
/// `bins` bins: the last two bin lengths of the order share one mean; before
/// them, each of the first `bins - 1` runs of one bin length has its own
/// mean; a value that falls in neither keeps itself.
pub open spec fn binned_at(values: Seq<Numeric>, bins: int, p: int) -> Numeric {
    let len = values.len() as int;
    let size = len / bins;
    if p >= len - 2 * size {
        run_mean(values, len - 2 * size, len)
    } else if p < (bins - 1) * size {
        run_mean(values, (p / size) * size, (p / size) * size + size)
    } else {
        values[by_size(values)[p].1 as int]
    }
}

/// The number of bins that the parameter `num_bins` asks for: its whole
/// part, none for a fraction below zero, and nothing for a number of minus
/// one or less.
pub open spec fn bin_count(value: Numeric) -> Option<usize> {
    if value <= -NUMERIC_SCALE {
        None
    } else if value < 0 {
        Some(0)
    } else if value / NUMERIC_SCALE > usize::MAX {
        None
    } else {
        Some((value / NUMERIC_SCALE) as usize)
    }
}

/// Why the values cannot be discretised as the parameters say, if they
/// cannot: there are no parameters or no `num_bins` among them
/// (`InvalidConfig`), `num_bins` is no count (`Numeric`), there are fewer
/// than two bins, or not a value for each bin (`InvalidConfig`).
pub open spec fn binning_fault(len: nat, parameters: Option<Dictionary<Numeric>>) -> Option<PipelineError> {
    match parameters {
        None => Some(PipelineError::InvalidConfig),
        Some(given) => match given.lookup("num_bins"@) {
            None => Some(PipelineError::InvalidConfig),
            Some(value) => match bin_count(value) {
                None => Some(PipelineError::Numeric),
                Some(bins) => if bins < 2 || len / (bins as nat) < 1 {
                    Some(PipelineError::InvalidConfig)
                } else {
                    None
                },
            },
        },
    }
}

/// The number of bins that usable parameters ask for.
pub open spec fn bins_of(parameters: Option<Dictionary<Numeric>>) -> int {
    bin_count(parameters.unwrap().lookup("num_bins"@).unwrap()).unwrap() as int
}

/// Reads a count of bins.
pub fn read_bin_count(value: Numeric) -> (count: Option<usize>)
    ensures
        count == bin_count(value),
{
    if value <= -NUMERIC_SCALE {
        None
    } else if value < 0 {
        Some(0)
    } else {
        let whole: u64 = (value / NUMERIC_SCALE) as u64;
        if whole > usize::MAX as u64 {
            None
        } else {
            Some(whole as usize)
        }
    }
}

impl EqualFrequencyDiscretization {
    /// Puts the mean of its bin in the place of every value of `column`.
    /// A column that cannot be discretised stays as it is.
    pub fn apply(column: &mut Column<Numeric>, parameters: &Option<Dictionary<Numeric>>) -> (done: Result<
        (),
        PipelineError,
    >)
        ensures
            final(column).same_labels(old(column)),
            final(column)@.len() == old(column)@.len(),
            match binning_fault(old(column)@.len(), *parameters) {
                Some(error) => done == Err::<(), PipelineError>(error) && final(column)@ == old(column)@,
                None => done is Ok && forall|p: int|
                    0 <= p < old(column)@.len() ==> final(column)@[(#[trigger] by_size(old(column)@)[p]).1 as int]
                        == binned_at(old(column)@, bins_of(*parameters), p),
            },
    {
        let given = match parameters {
            Some(given) => given,
            None => {
                return Err(PipelineError::InvalidConfig);
            },
        };
        let value = match given.get("num_bins") {
            Some(value) => *value,
            None => {
                return Err(PipelineError::InvalidConfig);
            },
        };
        let num_bins = match read_bin_count(value) {
            Some(count) => count,
            None => {
                return Err(PipelineError::Numeric);
            },
        };
        if num_bins < 2 {
            return Err(PipelineError::InvalidConfig);
        }
        let len_items = column.len();
        let size = len_items / num_bins;
        if size < 1 {
            return Err(PipelineError::InvalidConfig);
        }
        let ghost values = column@;
        let ghost order = by_size(values);
        let mut sorted: Vec<(u128, usize)> = Vec::new();
        let mut kept: Vec<Numeric> = Vec::new();
        let mut at: usize = 0;
        while at < len_items
            invariant
                at <= len_items,
                len_items == column@.len(),
                column@ == values,
                sorted@ == sized(values).take(at as int),
                kept@ == values.take(at as int),
            decreases len_items - at,
        {
            let value = column.values()[at];
            let magnitude: u128 = if value < 0 {
                (-(value as i128)) as u128
            } else {
                value as u128
            };
            sorted.push((magnitude, at));
            kept.push(value);
            at = at + 1;
            proof {
                assert(sorted@ =~= sized(values).take(at as int));
                assert(kept@ =~= values.take(at as int));
            }
        }
        proof {
            assert(sorted@ =~= sized(values));
            assert(kept@ =~= values);
        }
        sort_neighbors(&mut sorted);
        proof {
            lemma_neighbor_order_total();
            lemma_sorted_places(sized(values));
            lemma_sorted_unique(sorted@, order, neighbor_order());
            assert((num_bins - 1) * size <= len_items && 2 * size <= len_items && (num_bins - 1) * size >= 0)
                by (nonlinear_arith)
                requires
                    size == len_items / num_bins,
                    num_bins >= 2,
                    len_items >= 0,
            ;
        }
        let mut fresh: Vec<Numeric> = Vec::new();
        let mut bin: usize = 0;
        let mut copied: usize = 0;
        while copied < len_items
            invariant
                copied <= len_items,
                kept@ == values,
                len_items == values.len(),
                fresh@ == values.take(copied as int),
            decreases len_items - copied,
        {
            fresh.push(kept[copied]);
            copied = copied + 1;
            assert(fresh@ =~= values.take(copied as int));
        }
        assert(fresh@ =~= values);
        while bin < num_bins - 1
            invariant
                bin <= num_bins - 1,
                num_bins >= 2,
                size >= 1,
                size == len_items / num_bins,
                (num_bins - 1) * size <= len_items,
                len_items == values.len(),
                len_items <= usize::MAX,
                kept@ == values,
                sorted@ == order,
                order == by_size(values),
                order.len() == len_items,
                fresh@.len() == len_items,
                forall|p: int| 0 <= p < len_items ==> (#[trigger] order[p]).1 < len_items,
                forall|p: int, q: int|
                    0 <= p < len_items && 0 <= q < len_items && p != q ==> (#[trigger] order[p]).1 != (
                    #[trigger] order[q]).1,
                forall|p: int|
                    0 <= p < bin * size ==> fresh@[(#[trigger] order[p]).1 as int] == run_mean(
                        values,
                        (p / (size as int)) * size,
                        (p / (size as int)) * size + size,
                    ),
                forall|p: int|
                    bin * size <= p < len_items ==> fresh@[(#[trigger] order[p]).1 as int] == values[order[p].1 as int],
            decreases num_bins - 1 - bin,
        {
            proof {
                assert(bin * size + size <= (num_bins - 1) * size && bin * size >= 0 && (bin + 1) * size == bin
                    * size + size) by (nonlinear_arith)
                    requires
                        0 <= bin < num_bins - 1,
                        size >= 1,
                ;
            }
            let from = bin * size;
            let to = from + size;
            let filler = Self::mean_of_run(&kept, &sorted, from, to);
            Self::fill_run(&mut fresh, &sorted, from, to, filler);
            proof {
                assert forall|p: int| 0 <= p < (bin + 1) * size implies fresh@[(#[trigger] order[p]).1 as int]
                    == run_mean(values, (p / (size as int)) * size, (p / (size as int)) * size + size) by {
                    if p >= from {
                        assert(p / (size as int) == bin) by (nonlinear_arith)
                            requires
                                bin * size <= p < bin * size + size,
                                size >= 1,
                        ;
                    }
                }
            }
            bin = bin + 1;
        }
        let from = len_items - 2 * size;
        let filler = Self::mean_of_run(&kept, &sorted, from, len_items);
        Self::fill_run(&mut fresh, &sorted, from, len_items, filler);
        let mut at: usize = 0;
        while at < len_items
            invariant
                at <= len_items,
                len_items == column@.len(),
                fresh@.len() == len_items,
                column.same_labels(old(column)),
                forall|i: int| 0 <= i < at ==> column@[i] == fresh@[i],
            decreases len_items - at,
        {
            match column.get_mut(at) {
                Some(slot) => {
                    *slot = fresh[at];
                },
                None => {},
            }
            at = at + 1;
        }
        proof {
            assert(column@ =~= fresh@);
        }
        Ok(())
    }

    /// The mean of the values at the places from `from` up to `to` of the
    /// order of sizes.
    fn mean_of_run(kept: &Vec<Numeric>, sorted: &Vec<(u128, usize)>, from: usize, to: usize) -> (filler: Numeric)
        requires
            from < to <= sorted@.len(),
            sorted@ == by_size(kept@),
            forall|p: int| 0 <= p < sorted@.len() ==> (#[trigger] sorted@[p]).1 < kept@.len(),
        ensures
            filler == run_mean(kept@, from as int, to as int),
    {
        let mut run: Vec<Numeric> = Vec::new();
        let mut at: usize = from;
        while at < to
            invariant
                from <= at <= to <= sorted@.len(),
                sorted@ == by_size(kept@),
                forall|p: int| 0 <= p < sorted@.len() ==> (#[trigger] sorted@[p]).1 < kept@.len(),
                run@ == run_values(kept@, from as int, to as int).take(at - from),
            decreases to - at,
        {
            run.push(kept[sorted[at].1]);
            at = at + 1;
            assert(run@ =~= run_values(kept@, from as int, to as int).take(at - from));
        }
        assert(run@ =~= run_values(kept@, from as int, to as int));
        mean(&run)
    }

    /// Puts `filler` at the places from `from` up to `to` of the order of sizes.
    fn fill_run(fresh: &mut Vec<Numeric>, sorted: &Vec<(u128, usize)>, from: usize, to: usize, filler: Numeric)
        requires
            from <= to <= sorted@.len(),
            old(fresh)@.len() == sorted@.len(),
            forall|p: int| 0 <= p < sorted@.len() ==> (#[trigger] sorted@[p]).1 < sorted@.len(),
            forall|p: int, q: int|
                0 <= p < sorted@.len() && 0 <= q < sorted@.len() && p != q ==> (#[trigger] sorted@[p]).1 != (
                #[trigger] sorted@[q]).1,
        ensures
            final(fresh)@.len() == old(fresh)@.len(),
            forall|p: int| from <= p < to ==> final(fresh)@[(#[trigger] sorted@[p]).1 as int] == filler,
            forall|p: int|
                0 <= p < sorted@.len() && !(from <= p < to) ==> final(fresh)@[(#[trigger] sorted@[p]).1 as int] == old(
                    fresh,
                )@[sorted@[p].1 as int],
    {
        let mut at: usize = from;
        while at < to
            invariant
                from <= at <= to <= sorted@.len(),
                fresh@.len() == sorted@.len(),
                fresh@.len() == old(fresh)@.len(),
                forall|p: int| 0 <= p < sorted@.len() ==> (#[trigger] sorted@[p]).1 < sorted@.len(),
                forall|p: int, q: int|
                    0 <= p < sorted@.len() && 0 <= q < sorted@.len() && p != q ==> (#[trigger] sorted@[p]).1 != (
                    #[trigger] sorted@[q]).1,
                forall|p: int| from <= p < at ==> fresh@[(#[trigger] sorted@[p]).1 as int] == filler,
                forall|p: int|
                    0 <= p < sorted@.len() && !(from <= p < at) ==> fresh@[(#[trigger] sorted@[p]).1 as int] == old(
                        fresh,
                    )@[sorted@[p].1 as int],
            decreases to - at,
        {
            let place = sorted[at].1;
            fresh[place] = filler;
            at = at + 1;
        }
    }
}

} // verus!

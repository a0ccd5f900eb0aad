//! The parser that gives the distinct texts of a column one bit each, in
//! the order in which they first occur.

use crate::data::column::Column;
use crate::parsers::{find_label, is_coding, is_legend, labels_seen, lemma_labels_seen_grow};
use crate::types::{Numeric, PipelineError, NUMERIC_SCALE};
use std::collections::HashMap;
use vstd::prelude::*;

verus! {

/// The parser of texts that name kinds without an order.
pub struct NominalParser;

/// The number of texts that can have a bit of their own.
pub const NOMINAL_LABELS: usize = 32;

impl NominalParser {
    /// The key under which the dictionary holds the text at `place`: the
    /// bit of the place.
    pub open spec fn key(place: int) -> u32 {
        1u32 << (place as u32)
    }

    /// The number that stands for the text at `place`: its key.
    pub open spec fn code(place: int) -> Numeric {
        (Self::key(place) * NUMERIC_SCALE) as Numeric
    }

    /// The numbers of the first `count` places.
    pub open spec fn codes(count: nat) -> Seq<Numeric> {
        Seq::new(count, |place: int| Self::code(place))
    }

    /// The keys of the first `count` places.
    pub open spec fn keys(count: nat) -> Seq<u32> {
        Seq::new(count, |place: int| Self::key(place))
    }

    /// Why the values cannot be coded, if they cannot: they hold more
    /// distinct texts than there are bits (`Numeric`).
    pub open spec fn fault(values: Seq<Option<String>>) -> Option<PipelineError> {
        if labels_seen(values, values.len() as int).len() > NOMINAL_LABELS {
            Some(PipelineError::Numeric)
        } else {
            None
        }
    }

    /// Whether `parsed` is what this parser makes of `values`: a column
    /// that holds for every text the bit of its place among the distinct
    /// texts, with a dictionary from the bits back to the texts.
    pub open spec fn parses(values: Seq<Option<String>>, parsed: Result<
        Option<Column<Option<Numeric>>>,
        PipelineError,
    >) -> bool {
        match Self::fault(values) {
            Some(error) => parsed == Err::<Option<Column<Option<Numeric>>>, PipelineError>(error),
            None => parsed matches Ok(Some(column)) && is_coding(
                values,
                column@,
                Self::codes(labels_seen(values, values.len() as int).len()),
            ) && column.name_view() is None && column.metadata_view() is Some && is_legend(
                values,
                column.metadata_view().unwrap(),
                Self::keys(labels_seen(values, values.len() as int).len()),
            ),
        }
    }

    /// Codes the texts of `column`.
    pub fn parse(column: &Column<Option<String>>) -> (parsed: Result<
        Option<Column<Option<Numeric>>>,
        PipelineError,
    >)
        ensures
            Self::parses(column@, parsed),
    {
        broadcast use vstd::std_specs::hash::group_hash_axioms;

        let values = column.values();
        let mut ret: Column<Option<Numeric>> = Column::new();
        let mut labels: Vec<String> = Vec::new();
        let mut at: usize = 0;
        while at < values.len()
            invariant
                at <= values@.len(),
                values@ == column@,
                ret@.len() == at,
                ret.name_view() is None,
                ret.metadata_view() is None,
                labels@.len() == labels_seen(values@, at as int).len(),
                labels@.len() <= NOMINAL_LABELS,
                forall|p: int| 0 <= p < labels@.len() ==> (#[trigger] labels@[p])@ == labels_seen(values@, at as int)[p],
                forall|i: int|
                    0 <= i < at ==> match #[trigger] values@[i] {
                        Some(text) => exists|place: int|
                            0 <= place < labels@.len() && #[trigger] labels_seen(values@, at as int)[place]
                                == text@ && ret@[i] == Some(Self::code(place)),
                        None => ret@[i] is None,
                    },
            decreases values@.len() - at,
        {
            let ghost seen = labels_seen(values@, at as int);
            let ghost coded = ret@;
            match &values[at] {
                Some(text) => {
                    let place = match find_label(&labels, text) {
                        Some(place) => {
                            proof {
                                assert(seen[place as int] == text@);
                                assert(seen.contains(text@));
                            }
                            place
                        },
                        None => {
                            proof {
                                if seen.contains(text@) {
                                    let p = choose|p: int| 0 <= p < seen.len() && seen[p] == text@;
                                    assert(labels@[p]@ == text@);
                                }
                            }
                            if labels.len() >= NOMINAL_LABELS {
                                proof {
                                    lemma_labels_seen_grow(values@, at + 1, values@.len() as int);
                                }
                                return Err(PipelineError::Numeric);
                            }
                            labels.push(text.clone());
                            labels.len() - 1
                        },
                    };
                    let coding: u32 = 1u32 << (place as u32);
                    assert(coding * NUMERIC_SCALE <= u32::MAX * NUMERIC_SCALE) by (nonlinear_arith)
                        requires
                            0 <= coding <= u32::MAX,
                    ;
                    ret.push(Some((coding as i64) * NUMERIC_SCALE));
                    proof {
                        assert(labels_seen(values@, at + 1)[place as int] == text@);
                    }
                },
                None => {
                    ret.push(None);
                },
            }
            proof {
                let next = labels_seen(values@, at + 1);
                assert(seen.is_prefix_of(next)) by {
                    lemma_labels_seen_grow(values@, at as int, at + 1);
                }
                assert forall|i: int| 0 <= i < at + 1 implies match #[trigger] values@[i] {
                    Some(text) => exists|place: int|
                        0 <= place < labels@.len() && #[trigger] next[place] == text@ && ret@[i] == Some(
                            Self::code(place),
                        ),
                    None => ret@[i] is None,
                } by {
                    if i < at {
                        assert(ret@[i] == coded[i]);
                        match values@[i] {
                            Some(text) => {
                                let place = choose|place: int|
                                    0 <= place < seen.len() && #[trigger] seen[place] == text@ && coded[i] == Some(
                                        Self::code(place),
                                    );
                                assert(next[place] == text@);
                            },
                            None => {},
                        }
                    }
                }
            }
            at = at + 1;
        }
        let mut value_map: HashMap<u32, String> = HashMap::new();
        let mut place: usize = 0;
        while place < labels.len()
            invariant
                place <= labels@.len(),
                labels@.len() <= NOMINAL_LABELS,
                forall|p: int|
                    0 <= p < place ==> value_map@.contains_key(#[trigger] Self::key(p)) && value_map@[Self::key(
                        p,
                    )]@ == labels@[p]@,
                forall|k: u32| #[trigger]
                    value_map@.contains_key(k) ==> exists|p: int| 0 <= p < place && #[trigger] Self::key(p) == k,
            decreases labels@.len() - place,
        {
            let coding: u32 = 1u32 << (place as u32);
            proof {
                assert forall|p: int| 0 <= p < place implies Self::key(p) != coding by {
                    let earlier = p as u32;
                    let here = place as u32;
                    assert((1u32 << earlier) != (1u32 << here)) by (bit_vector)
                        requires
                            earlier < here,
                            here < 32,
                    ;
                }
            }
            value_map.insert(coding, labels[place].clone());
            proof {
                assert(Self::key(place as int) == coding);
            }
            place = place + 1;
        }
        ret.set_metadata(value_map);
        proof {
            let count = labels_seen(column@, column@.len() as int).len();
            assert forall|i: int| 0 <= i < column@.len() implies match #[trigger] column@[i] {
                Some(text) => exists|place: int|
                    0 <= place < count && #[trigger] labels_seen(column@, column@.len() as int)[place] == text@
                        && ret@[i] == Some(Self::codes(count)[place]),
                None => ret@[i] is None,
            } by {
                match column@[i] {
                    Some(text) => {
                        let place = choose|place: int|
                            0 <= place < count && #[trigger] labels_seen(column@, column@.len() as int)[place]
                                == text@ && ret@[i] == Some(Self::code(place));
                        assert(Self::codes(count)[place] == Self::code(place));
                    },
                    None => {},
                }
            }
            assert forall|place: int| 0 <= place < count implies value_map@.contains_key(
                #[trigger] Self::keys(count)[place],
            ) && value_map@[Self::keys(count)[place]]@ == labels_seen(column@, column@.len() as int)[place] by {
                assert(value_map@.contains_key(Self::key(place)));
            }
            assert forall|k: u32| #[trigger] value_map@.contains_key(k) implies Self::keys(count).contains(k) by {
                let place = choose|p: int| 0 <= p < count && #[trigger] Self::key(p) == k;
                assert(Self::keys(count)[place] == k);
            }
        }
        Ok(Some(ret))
    }
}

} // verus!

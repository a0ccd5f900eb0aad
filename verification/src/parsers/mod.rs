//! Parsers: how a column of texts becomes a column of numbers.

pub mod nominal;
pub mod null;
pub mod numerical;
pub mod ordinal;

use crate::data::column::Column;
use crate::data::data_frame::DataFrame;
use crate::parsers::nominal::NominalParser;
use crate::parsers::null::NullParser;
use crate::parsers::numerical::NumericalParser;
use crate::parsers::ordinal::OrdinalParser;
use crate::types::{Numeric, PipelineError};
use vstd::prelude::*;

verus! {

/// The ways of reading a column.
#[derive(Clone, Copy, Debug, PartialEq, Eq, Structural)]
pub enum Parser {
    Numerical,
    Nominal,
    Ordinal,
    Null,
}

/// The parser that `name` stands for, if it stands for one: `numerical`,
/// `nominal`, `ordinal` or `null`.
pub open spec fn parser_named(name: Seq<char>) -> Option<Parser> {
    if name == "numerical"@ {
        Some(Parser::Numerical)
    } else if name == "nominal"@ {
        Some(Parser::Nominal)
    } else if name == "ordinal"@ {
        Some(Parser::Ordinal)
    } else if name == "null"@ {
        Some(Parser::Null)
    } else {
        None
    }
}

/// The parser that goes by `name`; a name that stands for none is `InvalidConfig`.
pub fn get_parser(name: &str) -> (found: Result<Parser, PipelineError>)
    ensures
        found == match parser_named(name@) {
            Some(parser) => Ok::<Parser, PipelineError>(parser),
            None => Err(PipelineError::InvalidConfig),
        },
{
    let wanted = name.to_owned();
    if wanted == "numerical".to_owned() {
        Ok(Parser::Numerical)
    } else if wanted == "nominal".to_owned() {
        Ok(Parser::Nominal)
    } else if wanted == "ordinal".to_owned() {
        Ok(Parser::Ordinal)
    } else if wanted == "null".to_owned() {
        Ok(Parser::Null)
    } else {
        Err(PipelineError::InvalidConfig)
    }
}

/// The distinct texts among the first `upto` values, each once, in the
/// order in which they first occur.
pub open spec fn labels_seen(values: Seq<Option<String>>, upto: int) -> Seq<Seq<char>>
    decreases upto,
{
    if upto <= 0 {
        Seq::empty()
    } else {
        let before = labels_seen(values, upto - 1);
        match values[upto - 1] {
            Some(text) => if before.contains(text@) {
                before
            } else {
                before.push(text@)
            },
            None => before,
        }
    }
}

/// Whether `coded` holds, for every text of `values`, the code of the
/// place of the text among the distinct texts, and nothing for a missing
/// value; `codes` gives the code of every place.
pub open spec fn is_coding(values: Seq<Option<String>>, coded: Seq<Option<Numeric>>, codes: Seq<Numeric>) -> bool {
    &&& coded.len() == values.len()
    &&& codes.len() == labels_seen(values, values.len() as int).len()
    &&& forall|i: int|
        0 <= i < values.len() ==> match #[trigger] values[i] {
            Some(text) => exists|place: int|
                0 <= place < codes.len() && #[trigger] labels_seen(values, values.len() as int)[place]
                    == text@ && coded[i] == Some(codes[place]),
            None => coded[i] is None,
        }
}

/// Whether `dictionary` leads from the key of every place among the
/// distinct texts of `values` back to the text, and from nothing else;
/// `keys` gives the key of every place.
pub open spec fn is_legend(values: Seq<Option<String>>, dictionary: Map<u32, String>, keys: Seq<u32>) -> bool {
    &&& keys.len() == labels_seen(values, values.len() as int).len()
    &&& forall|place: int|
        0 <= place < keys.len() ==> dictionary.contains_key(#[trigger] keys[place]) && dictionary[keys[place]]@
            == labels_seen(values, values.len() as int)[place]
    &&& forall|k: u32| #[trigger] dictionary.contains_key(k) ==> keys.contains(k)
}

/// The distinct texts hold each text once.
pub proof fn lemma_labels_seen(values: Seq<Option<String>>, upto: int)
    requires
        0 <= upto <= values.len(),
    ensures
        labels_seen(values, upto).no_duplicates(),
        labels_seen(values, upto).len() <= upto,
    decreases upto,
{
    if upto > 0 {
        lemma_labels_seen(values, upto - 1);
    }
}

/// The distinct texts only grow as more values are looked at.
pub proof fn lemma_labels_seen_grow(values: Seq<Option<String>>, few: int, many: int)
    requires
        0 <= few <= many <= values.len(),
    ensures
        labels_seen(values, few).is_prefix_of(labels_seen(values, many)),
    decreases many - few,
{
    if few < many {
        lemma_labels_seen_grow(values, few, many - 1);
    }
}

/// Looks for `text` among `labels`.
pub fn find_label(labels: &Vec<String>, text: &String) -> (place: Option<usize>)
    ensures
        match place {
            Some(at) => at < labels@.len() && labels@[at as int]@ == text@,
            None => forall|j: int| 0 <= j < labels@.len() ==> labels@[j]@ != text@,
        },
{
    let mut at: usize = 0;
    while at < labels.len()
        invariant
            at <= labels@.len(),
            forall|j: int| 0 <= j < at ==> labels@[j]@ != text@,
        decreases labels@.len() - at,
    {
        if labels[at] == *text {
            return Some(at);
        }
        at = at + 1;
    }
    None
}

impl Parser {
    /// Why this parser cannot read the values of `column`, if it cannot.
    pub open spec fn fault(&self, column: Seq<Option<String>>) -> Option<PipelineError> {
        match self {
            Parser::Numerical => None,
            Parser::Nominal => NominalParser::fault(column),
            Parser::Ordinal => OrdinalParser::fault(column),
            Parser::Null => None,
        }
    }

    /// Whether `parsed` is what this parser makes of the values of `column`.
    pub open spec fn parses(&self, column: Seq<Option<String>>, parsed: Result<
        Option<Column<Option<Numeric>>>,
        PipelineError,
    >) -> bool {
        match self {
            Parser::Numerical => NumericalParser::parses(column, parsed),
            Parser::Nominal => NominalParser::parses(column, parsed),
            Parser::Ordinal => OrdinalParser::parses(column, parsed),
            Parser::Null => parsed == Ok::<Option<Column<Option<Numeric>>>, PipelineError>(None),
        }
    }

    /// Reads `column` in the way that `self` names.
    pub fn parse(&self, column: &Column<Option<String>>) -> (parsed: Result<
        Option<Column<Option<Numeric>>>,
        PipelineError,
    >)
        ensures
            self.parses(column@, parsed),
            parsed is Err <==> self.fault(column@) is Some,
            parsed is Ok ==> (parsed.unwrap() is None <==> *self == Parser::Null),
    {
        match self {
            Parser::Numerical => NumericalParser::parse(column),
            Parser::Nominal => NominalParser::parse(column),
            Parser::Ordinal => OrdinalParser::parse(column),
            Parser::Null => NullParser::parse(column),
        }
    }
}

/// The error that ends the reading of the first `upto` columns of `table`
/// with the parsers named for them, if one does: that of the first column
/// whose parser is unknown (`InvalidConfig`) or cannot read it.
pub open spec fn input_fault(table: Seq<Column<Option<String>>>, parsers: Seq<String>, upto: int) -> Option<
    PipelineError,
>
    decreases upto,
{
    if upto <= 0 {
        None
    } else if input_fault(table, parsers, upto - 1) is Some {
        input_fault(table, parsers, upto - 1)
    } else {
        match parser_named(parsers[upto - 1]@) {
            None => Some(PipelineError::InvalidConfig),
            Some(parser) => parser.fault(table[upto - 1]@),
        }
    }
}

/// Whether `columns` are what the first `upto` columns of `table` are read
/// as by the parsers named for them: one column for each but those of the
/// `null` parser, in order, under the header of its source and with the
/// dictionary of its source where that has one.
pub open spec fn is_parsed(
    table: Seq<Column<Option<String>>>,
    parsers: Seq<String>,
    upto: int,
    columns: Seq<Column<Option<Numeric>>>,
) -> bool
    decreases upto,
{
    if upto <= 0 {
        columns.len() == 0
    } else {
        match parser_named(parsers[upto - 1]@) {
            None => false,
            Some(Parser::Null) => is_parsed(table, parsers, upto - 1, columns),
            Some(parser) => columns.len() > 0 && is_parsed(table, parsers, upto - 1, columns.drop_last())
                && exists|read: Column<Option<Numeric>>| #[trigger]
                parser.parses(table[upto - 1]@, Ok(Some(read))) && read@ == columns.last()@
                    && columns.last().name_view() == table[upto - 1].name_view() && columns.last().metadata_view()
                    == if table[upto - 1].metadata_view() is Some {
                    table[upto - 1].metadata_view()
                } else {
                    read.metadata_view()
                },
        }
    }
}

/// Once a column has ended the reading, it stays ended.
pub proof fn lemma_input_fault_stays(table: Seq<Column<Option<String>>>, parsers: Seq<String>, failed: int, upto: int)
    requires
        failed <= upto,
        input_fault(table, parsers, failed) is Some,
    ensures
        input_fault(table, parsers, upto) == input_fault(table, parsers, failed),
    decreases upto - failed,
{
    if failed < upto {
        lemma_input_fault_stays(table, parsers, failed, upto - 1);
    }
}

/// Reads every column of `table` with the parser named for it.
///
/// As many parsers have to be named as there are columns
/// (`ShapeMismatch`). The first column whose parser is unknown or fails
/// ends the reading with the error of that column.
pub fn parse_input(table: DataFrame<Option<String>>, parsers: &Vec<String>) -> (parsed: Result<
    DataFrame<Option<Numeric>>,
    PipelineError,
>)
    ensures
        table@.len() != parsers@.len() ==> (parsed matches Err(error) && error == PipelineError::ShapeMismatch),
        table@.len() == parsers@.len() ==> match input_fault(table@, parsers@, table@.len() as int) {
            Some(error) => parsed matches Err(raised) && raised == error,
            None => parsed is Ok && is_parsed(table@, parsers@, table@.len() as int, parsed.unwrap()@),
        },
{
    let sources = table.columns();
    if sources.len() != parsers.len() {
        return Err(PipelineError::ShapeMismatch);
    }
    let mut ret: DataFrame<Option<Numeric>> = DataFrame::new();
    let mut at: usize = 0;
    while at < sources.len()
        invariant
            at <= sources@.len(),
            sources@ == table@,
            sources@.len() == parsers@.len(),
            input_fault(table@, parsers@, at as int) is None,
            is_parsed(table@, parsers@, at as int, ret@),
        decreases sources@.len() - at,
    {
        let parser = match get_parser(parsers[at].as_str()) {
            Ok(parser) => parser,
            Err(error) => {
                proof {
                    lemma_input_fault_stays(table@, parsers@, at + 1, table@.len() as int);
                }
                return Err(error);
            },
        };
        let source = &sources[at];
        match parser.parse(source) {
            Err(error) => {
                proof {
                    lemma_input_fault_stays(table@, parsers@, at + 1, table@.len() as int);
                }
                return Err(error);
            },
            Ok(None) => {},
            Ok(Some(read)) => {
                let mut column = read;
                let ghost as_read = column;
                match source.get_name() {
                    Some(name) => {
                        column.set_name(name.to_owned());
                    },
                    None => {},
                }
                match source.get_metadata() {
                    Some(metadata) => {
                        column.set_metadata(metadata.clone());
                    },
                    None => {},
                }
                let ghost before = ret@;
                ret.add_column(column);
                proof {
                    assert(ret@.drop_last() == before);
                    assert(parser.parses(table@[at as int]@, Ok(Some(as_read))));
                }
            },
        }
        at = at + 1;
    }
    Ok(ret)
}

} // verus!

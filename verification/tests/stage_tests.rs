use pipeline::config::ScrubbingStageConfigs;
use pipeline::data::column::Column;
use pipeline::data::data_frame::DataFrame;
use pipeline::dictionary::Dictionary;
use pipeline::input::csv::CsvReader;
use pipeline::input::{get_reader, Reader};
use pipeline::parsers::nominal::NominalParser;
use pipeline::parsers::null::NullParser;
use pipeline::parsers::numerical::NumericalParser;
use pipeline::parsers::ordinal::OrdinalParser;
use pipeline::parsers::{get_parser, parse_input, Parser};
use pipeline::scrubbers::mean::MeanScrubber;
use pipeline::scrubbers::mode::ModeScrubber;
use pipeline::scrubbers::{amputate, get_scrubber, scrub, Scrubber};
use pipeline::transform::discretization::EqualFrequencyDiscretization;
use pipeline::transform::{get_transform, Transform};
use pipeline::types::{Numeric, PipelineError, NUMERIC_SCALE};
use std::collections::HashMap;

const ONE: Numeric = NUMERIC_SCALE;

fn texts(values: &[Option<&str>]) -> Column<Option<String>> {
    let mut column = Column::new();
    for value in values {
        column.push(value.map(|text| text.to_string()));
    }
    column
}

fn numbers(values: &[Option<Numeric>]) -> Column<Option<Numeric>> {
    let mut column = Column::new();
    column.append(values.to_vec());
    column
}

fn lines(text: &[&str]) -> Vec<String> {
    text.iter().map(|line| line.to_string()).collect()
}

#[test]
fn csv_with_headers() {
    let table = CsvReader::parse(&lines(&["x, y ,z", "1,2,3", " 4 ,?, 6"]), &["?".to_string()], true).unwrap();
    assert_eq!(table.columns().len(), 3);
    assert_eq!(table.get_column_idx(1).unwrap().get_name(), Some("y"));
    assert_eq!(
        table.get_column_name("x").unwrap().values(),
        &[Some("1".to_string()), Some("4".to_string())]
    );
    assert_eq!(table.get_column_name("y").unwrap().values(), &[Some("2".to_string()), None]);
    assert_eq!(table.get_column_name("z").unwrap().values(), &[Some("3".to_string()), Some("6".to_string())]);
}

#[test]
fn csv_without_headers_keeps_the_first_line_as_a_row() {
    let table = CsvReader::parse(&lines(&["a,NA", "b,c"]), &["NA".to_string()], false).unwrap();
    assert_eq!(table.get_column_idx(0).unwrap().get_name(), None);
    assert_eq!(table.get_column_idx(0).unwrap().values(), &[Some("a".to_string()), Some("b".to_string())]);
    assert_eq!(table.get_column_idx(1).unwrap().values(), &[None, Some("c".to_string())]);
}

#[test]
fn csv_short_and_long_lines() {
    let table = CsvReader::parse(&lines(&["a,b", "1", "2,3,4", ""]), &[], false).unwrap();
    assert_eq!(table.columns().len(), 2);
    assert_eq!(
        table.get_column_idx(0).unwrap().values(),
        &[Some("a".to_string()), Some("1".to_string()), Some("2".to_string()), Some(String::new())]
    );
    assert_eq!(table.get_column_idx(1).unwrap().values(), &[Some("b".to_string()), Some("3".to_string())]);
}

#[test]
fn csv_without_lines_is_empty_input() {
    assert_eq!(CsvReader::parse(&Vec::new(), &[], true).err(), Some(PipelineError::EmptyInput));
}

#[test]
fn readers_go_by_format() {
    assert_eq!(get_reader("csv"), Ok(Reader::Csv));
    assert_eq!(get_reader("json"), Err(PipelineError::InvalidConfig));
}

#[test]
fn numerical_parser_reads_decimal_numbers() {
    let column = texts(&[Some("1.5"), None, Some("abc"), Some("-2")]);
    let parsed = NumericalParser::parse(&column).unwrap().unwrap();
    assert_eq!(parsed.values(), &[Some(3 * ONE / 2), None, None, Some(-2 * ONE)]);
    assert!(parsed.get_metadata().is_none());
}

#[test]
fn ordinal_parser_numbers_texts_by_first_occurrence() {
    let column = texts(&[Some("low"), Some("high"), None, Some("low"), Some("mid"), Some("high")]);
    let parsed = OrdinalParser::parse(&column).unwrap().unwrap();
    assert_eq!(parsed.values(), &[Some(0), Some(ONE), None, Some(0), Some(2 * ONE), Some(ONE)]);
    let mut legend = HashMap::new();
    legend.insert(0, "low".to_string());
    legend.insert(1, "high".to_string());
    legend.insert(2, "mid".to_string());
    assert_eq!(parsed.get_metadata(), Some(&legend));
}

#[test]
fn nominal_parser_gives_each_text_a_bit() {
    let column = texts(&[Some("red"), Some("green"), Some("red"), None, Some("blue")]);
    let parsed = NominalParser::parse(&column).unwrap().unwrap();
    assert_eq!(parsed.values(), &[Some(ONE), Some(2 * ONE), Some(ONE), None, Some(4 * ONE)]);
    let mut legend = HashMap::new();
    legend.insert(1, "red".to_string());
    legend.insert(2, "green".to_string());
    legend.insert(4, "blue".to_string());
    assert_eq!(parsed.get_metadata(), Some(&legend));
}

#[test]
fn nominal_parser_has_thirty_two_bits() {
    let names: Vec<String> = (0..33).map(|n| n.to_string()).collect();
    let mut column = Column::new();
    for name in names.iter().take(32) {
        column.push(Some(name.clone()));
    }
    let parsed = NominalParser::parse(&column).unwrap().unwrap();
    assert_eq!(parsed.get(31), Some(&Some((1i64 << 31) * ONE)));
    column.push(Some(names[32].clone()));
    assert_eq!(NominalParser::parse(&column).err(), Some(PipelineError::Numeric));
}

#[test]
fn null_parser_makes_no_column() {
    assert!(NullParser::parse(&texts(&[Some("1")])).unwrap().is_none());
}

#[test]
fn parsers_go_by_name() {
    assert_eq!(get_parser("numerical"), Ok(Parser::Numerical));
    assert_eq!(get_parser("nominal"), Ok(Parser::Nominal));
    assert_eq!(get_parser("ordinal"), Ok(Parser::Ordinal));
    assert_eq!(get_parser("null"), Ok(Parser::Null));
    assert_eq!(get_parser("date"), Err(PipelineError::InvalidConfig));
}

#[test]
fn input_is_parsed_column_by_column() {
    let table = CsvReader::parse(&lines(&["size,id,kind", "1.5,a,x", "2,b,y", "n/a,c,x"]), &[], true).unwrap();
    let names = |names: &[&str]| names.iter().map(|name| name.to_string()).collect::<Vec<String>>();
    let parsed = parse_input(table, &names(&["numerical", "null", "ordinal"])).unwrap();
    assert_eq!(parsed.columns().len(), 2);
    assert_eq!(parsed.get_column_name("size").unwrap().values(), &[Some(3 * ONE / 2), Some(2 * ONE), None]);
    assert_eq!(parsed.get_column_name("kind").unwrap().values(), &[Some(0), Some(ONE), Some(0)]);
    assert!(parsed.get_column_name("id").is_none());
    let again = CsvReader::parse(&lines(&["1,2"]), &[], false).unwrap();
    assert_eq!(parse_input(again, &names(&["numerical"])).err(), Some(PipelineError::ShapeMismatch));
    let third = CsvReader::parse(&lines(&["1,2"]), &[], false).unwrap();
    assert_eq!(parse_input(third, &names(&["numerical", "numeric"])).err(), Some(PipelineError::InvalidConfig));
}

#[test]
fn mean_scrubber_fills_with_the_mean() {
    let mut column = numbers(&[Some(ONE), None, Some(4 * ONE), None]);
    column.set_name("x".to_string());
    assert_eq!(MeanScrubber::clean(&mut column), Ok(()));
    assert_eq!(column.values(), &[Some(ONE), Some(5 * ONE / 2), Some(4 * ONE), Some(5 * ONE / 2)]);
    assert_eq!(column.get_name(), Some("x"));
}

#[test]
fn mode_scrubber_fills_with_the_first_most_common_value() {
    let mut column = numbers(&[Some(7), None, Some(3), Some(3), Some(7)]);
    assert_eq!(ModeScrubber::clean(&mut column), Ok(()));
    assert_eq!(column.values(), &[Some(7), Some(7), Some(3), Some(3), Some(7)]);
}

#[test]
fn scrubbers_need_a_value_that_is_present() {
    let mut column = numbers(&[None, None]);
    assert_eq!(MeanScrubber::clean(&mut column), Err(PipelineError::EmptyInput));
    assert_eq!(ModeScrubber::clean(&mut column), Err(PipelineError::EmptyInput));
    assert_eq!(column.values(), &[None, None]);
    assert_eq!(Scrubber::Mean.clean(&mut numbers(&[])), Err(PipelineError::EmptyInput));
}

#[test]
fn scrubbers_go_by_name() {
    assert_eq!(get_scrubber("mean"), Ok(Scrubber::Mean));
    assert_eq!(get_scrubber("mode"), Ok(Scrubber::Mode));
    assert_eq!(get_scrubber("median"), Err(PipelineError::InvalidConfig));
}

#[test]
fn amputation_drops_rows_that_miss_a_value() {
    let mut table = DataFrame::new();
    let mut x = numbers(&[Some(1), None, Some(3), Some(4)]);
    x.set_name("x".to_string());
    table.add_column(x);
    table.add_column(numbers(&[Some(5), None, Some(7), None]));
    let cleaned = amputate(table).unwrap();
    assert_eq!(cleaned.get_column_name("x").unwrap().values(), &[1, 3]);
    assert_eq!(cleaned.get_column_idx(1).unwrap().values(), &[5, 7]);
}

#[test]
fn scrubbing_cleans_then_amputates() {
    let mut table = DataFrame::new();
    table.add_column(numbers(&[Some(2), None, Some(4)]));
    table.add_column(numbers(&[Some(5), Some(6), None]));
    let steps = vec![
        ScrubbingStageConfigs { name: "mean".to_string(), index: 0 },
        ScrubbingStageConfigs { name: "mode".to_string(), index: 7 },
    ];
    let cleaned = scrub(table, steps).unwrap();
    assert_eq!(cleaned.get_column_idx(0).unwrap().values(), &[2, 3]);
    assert_eq!(cleaned.get_column_idx(1).unwrap().values(), &[5, 6]);
}

#[test]
fn scrubbing_stops_at_the_first_failing_step() {
    let table = || {
        let mut table = DataFrame::new();
        table.add_column(numbers(&[None]));
        table
    };
    let step = |name: &str, index: usize| ScrubbingStageConfigs { name: name.to_string(), index };
    assert_eq!(scrub(table(), vec![step("median", 5)]).err(), Some(PipelineError::InvalidConfig));
    assert_eq!(scrub(table(), vec![step("mean", 0), step("median", 0)]).err(), Some(PipelineError::EmptyInput));
    assert_eq!(scrub(table(), Vec::new()).unwrap().get_column_idx(0).unwrap().len(), 0);
}

#[test]
fn transforms_go_by_name() {
    assert_eq!(get_transform("zscore"), Ok(Transform::ZScoreNormalization));
    assert_eq!(get_transform("log10"), Ok(Transform::Log10));
    assert_eq!(get_transform("equal-width-discretization"), Ok(Transform::EqualWidthDiscretization));
    assert_eq!(get_transform("equal-frequency-discretization"), Ok(Transform::EqualFrequencyDiscretization));
    assert_eq!(get_transform("normalize"), Err(PipelineError::InvalidConfig));
}

#[test]
fn equal_frequency_bins_take_the_mean_of_their_run() {
    let bins = |count: Numeric| {
        let mut parameters = Dictionary::new();
        parameters.insert("num_bins".to_string(), count);
        Some(parameters)
    };
    let mut column = Column::new();
    column.append(vec![5 * ONE, ONE, -4 * ONE, 2 * ONE, 3 * ONE, 6 * ONE, 7 * ONE]);
    assert_eq!(EqualFrequencyDiscretization::apply(&mut column, &bins(3 * ONE)), Ok(()));
    // by size: 1, 2 | 3, -4 | and the last four: -4, 5, 6, 7
    assert_eq!(
        column.values(),
        &[7 * ONE / 2, 3 * ONE / 2, 7 * ONE / 2, 3 * ONE / 2, -ONE / 2, 7 * ONE / 2, 7 * ONE / 2]
    );
    let mut sparse = Column::new();
    sparse.append(vec![7, 6, 5, 4, 3, 2, 1]);
    assert_eq!(EqualFrequencyDiscretization::apply(&mut sparse, &bins(4 * ONE + 5)), Ok(()));
    // bins of one value each; the values at the places 3 and 4 of the order
    // fall in no bin, and the last two share their mean, rounded towards zero
    assert_eq!(sparse.values(), &[6, 6, 5, 4, 3, 2, 1]);
}

#[test]
fn equal_frequency_needs_usable_parameters() {
    let with = |name: &str, count: Numeric| {
        let mut parameters = Dictionary::new();
        parameters.insert(name.to_string(), count);
        Some(parameters)
    };
    let mut column = Column::new();
    column.append(vec![3, 1, 2]);
    let apply = |column: &mut Column<Numeric>, parameters| EqualFrequencyDiscretization::apply(column, &parameters);
    assert_eq!(apply(&mut column, None), Err(PipelineError::InvalidConfig));
    assert_eq!(apply(&mut column, with("bins", 2 * ONE)), Err(PipelineError::InvalidConfig));
    assert_eq!(apply(&mut column, with("num_bins", -ONE)), Err(PipelineError::Numeric));
    assert_eq!(apply(&mut column, with("num_bins", -ONE + 1)), Err(PipelineError::InvalidConfig));
    assert_eq!(apply(&mut column, with("num_bins", 2 * ONE - 1)), Err(PipelineError::InvalidConfig));
    assert_eq!(apply(&mut column, with("num_bins", 4 * ONE)), Err(PipelineError::InvalidConfig));
    assert_eq!(column.values(), &[3, 1, 2]);
    assert_eq!(apply(&mut column, with("num_bins", 3 * ONE)), Ok(()));
}

#[test]
fn csv_fields_lose_unicode_white_space() {
    let table = CsvReader::parse(&lines(&["\u{a0}a\u{3000}, \tb c\r"]), &[], false).unwrap();
    assert_eq!(table.get_column_idx(0).unwrap().values(), &[Some("a".to_string())]);
    assert_eq!(table.get_column_idx(1).unwrap().values(), &[Some("b c".to_string())]);
}

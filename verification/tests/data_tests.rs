use pipeline::data::column::Column;
use pipeline::data::data_frame::DataFrame;
use pipeline::dictionary::Dictionary;
use pipeline::types::PipelineError;
use std::collections::HashMap;

fn named(name: &str, values: Vec<i64>) -> Column<i64> {
    let mut column = Column::new();
    column.set_name(name.to_string());
    column.append(values);
    column
}

#[test]
fn new_column_is_empty_and_nameless() {
    let column: Column<i64> = Column::new();
    assert_eq!(column.len(), 0);
    assert_eq!(column.get_name(), None);
    assert!(column.get_metadata().is_none());
    assert!(column.values().is_empty());
    let by_default: Column<i64> = Column::default();
    assert_eq!(by_default.len(), 0);
}

#[test]
fn column_keeps_values_in_order() {
    let mut column = Column::new();
    column.push(3);
    column.append(vec![1, 4]);
    column.push(1);
    assert_eq!(column.values(), &[3, 1, 4, 1]);
    assert_eq!(column.get(2), Some(&4));
    assert_eq!(column.get(4), None);
    assert_eq!(column.len(), 4);
}

#[test]
fn column_remove_ignores_an_index_outside() {
    let mut column = named("x", vec![3, 1, 4]);
    column.remove(3);
    assert_eq!(column.values(), &[3, 1, 4]);
    column.remove(1);
    assert_eq!(column.values(), &[3, 4]);
    assert_eq!(column.get_name(), Some("x"));
}

#[test]
fn column_values_can_be_changed_in_place() {
    let mut column = named("x", vec![3, 1, 4]);
    if let Some(value) = column.get_mut(1) {
        *value = 10;
    }
    assert!(column.get_mut(3).is_none());
    for value in column.values_mut().iter_mut() {
        *value += 1;
    }
    assert_eq!(column.values(), &[4, 11, 5]);
    column.clear();
    assert_eq!(column.len(), 0);
    assert_eq!(column.get_name(), Some("x"));
}

#[test]
fn column_carries_name_and_dictionary() {
    let mut column: Column<i64> = Column::new();
    column.set_name("colour".to_string());
    assert!(column.has_name("colour"));
    assert!(!column.has_name("color"));
    let mut legend = HashMap::new();
    legend.insert(0, "red".to_string());
    legend.insert(1, "green".to_string());
    column.set_metadata(legend.clone());
    assert_eq!(column.get_metadata(), Some(&legend));
    column.set_name("hue".to_string());
    assert_eq!(column.get_name(), Some("hue"));
}

#[test]
fn frame_finds_columns_by_position_and_header() {
    let mut table = DataFrame::new();
    table.add_column(named("x", vec![1, 2]));
    table.add_column(named("y", vec![3, 4]));
    let mut nameless = Column::new();
    nameless.append(vec![5, 6]);
    table.add_column(nameless);
    assert_eq!(table.columns().len(), 3);
    assert_eq!(table.get_column_idx(1).unwrap().values(), &[3, 4]);
    assert!(table.get_column_idx(3).is_none());
    assert_eq!(table.get_column_name("x").unwrap().values(), &[1, 2]);
    assert!(table.get_column_name("z").is_none());
    assert_eq!(table.find_column("y"), Some(1));
    let by_default: DataFrame<i64> = DataFrame::default();
    assert_eq!(by_default.columns().len(), 0);
}

#[test]
fn later_column_takes_over_a_header() {
    let mut table = DataFrame::new();
    table.add_column(named("x", vec![1]));
    table.add_column(named("y", vec![2]));
    table.add_column(named("x", vec![3]));
    assert_eq!(table.find_column("x"), Some(2));
    assert_eq!(table.get_column_name("x").unwrap().values(), &[3]);
}

#[test]
fn frame_columns_can_be_changed_in_place() {
    let mut table = DataFrame::new();
    table.add_column(named("x", vec![1, 2]));
    table.add_column(named("y", vec![3, 4]));
    table.get_column_idx_mut(0).unwrap().push(9);
    table.get_column_name_mut("y").unwrap().remove(0);
    assert!(table.get_column_idx_mut(2).is_none());
    assert!(table.get_column_name_mut("z").is_none());
    for column in table.columns_mut().iter_mut() {
        column.push(0);
    }
    assert_eq!(table.get_column_idx(0).unwrap().values(), &[1, 2, 9, 0]);
    assert_eq!(table.get_column_idx(1).unwrap().values(), &[4, 0]);
}

#[test]
fn rows_hold_what_each_column_has() {
    let mut table = DataFrame::new();
    table.add_column(named("x", vec![1, 2, 3]));
    table.add_column(named("y", vec![4, 5]));
    table.add_column(named("z", vec![7, 8, 9]));
    assert_eq!(table.get_row(0), Ok(vec![1, 4, 7]));
    assert_eq!(table.get_row(2), Ok(vec![3, 9]));
    assert_eq!(table.get_row(3), Err(PipelineError::OutOfBounds));
    let empty: DataFrame<i64> = DataFrame::new();
    assert_eq!(empty.get_row(0), Err(PipelineError::EmptyInput));
}

#[test]
fn dictionary_holds_every_name_once() {
    let mut dictionary = Dictionary::new();
    dictionary.insert("k".to_string(), 1);
    dictionary.insert("eps".to_string(), 2);
    dictionary.insert("k".to_string(), 3);
    assert_eq!(dictionary.len(), 2);
    assert_eq!(dictionary.get("k"), Some(&3));
    assert_eq!(dictionary.get("eps"), Some(&2));
    assert_eq!(dictionary.get("gamma"), None);
    assert_eq!(dictionary.name_at(0), "k");
    assert_eq!(dictionary.value_at(0), &3);
    assert_eq!(dictionary.name_at(1), "eps");
}

#[test]
fn errors_have_a_message() {
    assert!(PipelineError::ShapeMismatch.message().starts_with("ShapeMismatch"));
    assert!(PipelineError::NoCandidates.message().starts_with("NoCandidates"));
    assert!(PipelineError::InvalidParams.message().starts_with("InvalidParams"));
}

#[test]
fn short_column_shows_every_value() {
    let column = named("x", vec![1, -2]);
    assert_eq!(column.to_lines(), vec!["-------x--------", "1", "-2"]);
    let mut nameless: Column<Option<i64>> = Column::new();
    nameless.push(None);
    assert_eq!(nameless.to_lines(), vec!["------N/A-------", "None"]);
}

#[test]
fn long_column_shows_nine_values_and_the_last() {
    let column = named("a very long header", (0..11).collect());
    let lines = column.to_lines();
    assert_eq!(lines.len(), 12);
    assert_eq!(lines[0], "a very long header");
    assert_eq!(lines[9], "8");
    assert_eq!(lines[10], "...");
    assert_eq!(lines[11], "10");
    assert_eq!(named("ten", (0..10).collect()).to_lines().len(), 11);
}

#[test]
fn frame_knows_its_rows_and_shape() {
    let mut table = DataFrame::new();
    assert_eq!(table.rows(), 0);
    assert!(table.has_equal_columns());
    table.add_column(named("x", vec![1, 2, 3]));
    table.add_column(named("y", vec![4, 5, 6]));
    assert_eq!(table.rows(), 3);
    assert!(table.has_equal_columns());
    table.add_column(named("z", vec![7]));
    assert_eq!(table.rows(), 3);
    assert!(!table.has_equal_columns());
}

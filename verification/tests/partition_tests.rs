use pipeline::data::column::Column;
use pipeline::data::data_frame::DataFrame;
use pipeline::dictionary::Dictionary;
use rand::rngs::StdRng;
use rand::SeedableRng;
use pipeline::types::{Numeric, PipelineError, NUMERIC_SCALE};
use pipeline::validation::cross_stratified::{whole_classes, StratifiedCrossValidation};
use pipeline::validation::kfold::{kfold_split, KFold};
use pipeline::validation::kfold_stratified::{group_by_class, stratified_split, StratifiedKFold};
use pipeline::validation::{get_partitioner, Partitioner};

fn frame_of(columns: Vec<Vec<Numeric>>) -> DataFrame<Numeric> {
    let mut table = DataFrame::new();
    for values in columns {
        let mut column = Column::new();
        column.append(values);
        table.add_column(column);
    }
    table
}

fn folds_parameter(k: i64) -> Dictionary<Numeric> {
    let mut parameters = Dictionary::new();
    parameters.insert("num_folds".to_string(), k * NUMERIC_SCALE);
    parameters
}

fn sorted(mut rows: Vec<usize>) -> Vec<usize> {
    rows.sort();
    rows
}

#[test]
fn kfold_split_cuts_runs_in_order() {
    let rows: Vec<usize> = (0..10).collect();
    let folds = kfold_split(&rows, 3);
    assert_eq!(folds.len(), 3);
    assert_eq!(folds[0], (vec![3, 4, 5, 6, 7, 8, 9], vec![0, 1, 2]));
    assert_eq!(folds[1], (vec![0, 1, 2, 6, 7, 8, 9], vec![3, 4, 5]));
    assert_eq!(folds[2], (vec![0, 1, 2, 3, 4, 5], vec![6, 7, 8, 9]));
}

#[test]
fn kfold_split_last_fold_takes_remainder_by_fold_size() {
    // ten rows in four folds: a fold holds two rows, and ten leaves nothing
    // when divided by two, so the last fold holds two rows as well
    let rows: Vec<usize> = (0..10).collect();
    let folds = kfold_split(&rows, 4);
    assert_eq!(folds[3], (vec![0, 1, 2, 3, 4, 5, 6, 7], vec![8, 9]));
    assert_eq!(folds[2].1, vec![4, 5]);
}

#[test]
fn kfold_partition_covers_every_row_once() {
    let table = frame_of(vec![(0..11).map(|v| v * NUMERIC_SCALE).collect(), vec![0; 11]]);
    let mut rng = StdRng::seed_from_u64(7);
    let folds = KFold::partition(&table, 1, &folds_parameter(3), &mut rng).unwrap();
    assert_eq!(folds.len(), 3);
    let mut seen = Vec::new();
    for (train, validation) in folds.iter() {
        let mut all = train.clone();
        all.extend(validation.iter().copied());
        assert_eq!(sorted(all), (0..11).collect::<Vec<usize>>());
        seen.extend(validation.iter().copied());
    }
    assert_eq!(sorted(seen), (0..11).collect::<Vec<usize>>());
}

#[test]
fn kfold_partition_rejects_bad_requests() {
    let table = frame_of(vec![vec![0; 4], vec![0; 4]]);
    let mut rng = StdRng::seed_from_u64(1);
    assert_eq!(KFold::partition(&table, 2, &folds_parameter(2), &mut rng), Err(PipelineError::InvalidParams));
    assert_eq!(KFold::partition(&table, 0, &Dictionary::new(), &mut rng), Err(PipelineError::InvalidParams));
    assert_eq!(KFold::partition(&table, 0, &folds_parameter(1), &mut rng), Err(PipelineError::InvalidParams));
    assert_eq!(KFold::partition(&table, 0, &folds_parameter(5), &mut rng), Err(PipelineError::InvalidParams));
    assert!(KFold::partition(&table, 0, &folds_parameter(4), &mut rng).is_ok());
}

#[test]
fn group_by_class_keeps_first_seen_order() {
    let labels: Vec<Numeric> = vec![5, 3, 5, 5, 3, 9];
    assert_eq!(group_by_class(&labels), vec![vec![0, 2, 3], vec![1, 4], vec![5]]);
}

#[test]
fn stratified_split_gives_last_fold_the_rest() {
    let groups = vec![vec![0, 1, 2, 3, 4, 5, 6], vec![7, 8, 9]];
    let folds = stratified_split(&groups, 3);
    assert_eq!(folds[0], (vec![2, 3, 4, 5, 6, 8, 9], vec![0, 1, 7]));
    assert_eq!(folds[1], (vec![0, 1, 4, 5, 6, 7, 9], vec![2, 3, 8]));
    assert_eq!(folds[2], (vec![0, 1, 2, 3, 7, 8], vec![4, 5, 6, 9]));
}

#[test]
fn stratified_three_folds_on_ten_rows() {
    let labels: Vec<Numeric> = vec![0, 0, 0, 0, 0, 0, 0, NUMERIC_SCALE, NUMERIC_SCALE, NUMERIC_SCALE];
    let table = frame_of(vec![vec![0; 10], labels.clone()]);
    let mut rng = StdRng::seed_from_u64(42);
    let folds = StratifiedKFold::partition(&table, 1, &folds_parameter(3), &mut rng).unwrap();
    let mut ones = Vec::new();
    let mut zeros = Vec::new();
    let mut seen = Vec::new();
    for (_, validation) in folds.iter() {
        ones.push(validation.iter().filter(|&&row| labels[row] == NUMERIC_SCALE).count());
        zeros.push(validation.iter().filter(|&&row| labels[row] == 0).count());
        seen.extend(validation.iter().copied());
    }
    assert_eq!(ones, vec![1, 1, 1]);
    assert_eq!(sorted(zeros), vec![2, 2, 3]);
    assert_eq!(sorted(seen), (0..10).collect::<Vec<usize>>());
}

#[test]
fn stratified_partition_rejects_bad_requests() {
    let table = frame_of(vec![vec![0; 4]]);
    let mut rng = StdRng::seed_from_u64(1);
    assert_eq!(
        StratifiedKFold::partition(&table, 1, &folds_parameter(2), &mut rng),
        Err(PipelineError::InvalidParams)
    );
    assert_eq!(
        StratifiedKFold::partition(&table, 0, &Dictionary::new(), &mut rng),
        Err(PipelineError::InvalidParams)
    );
    assert_eq!(
        StratifiedKFold::partition(&table, 0, &folds_parameter(1), &mut rng),
        Err(PipelineError::InvalidParams)
    );
}

#[test]
fn partitioners_go_by_name() {
    assert_eq!(get_partitioner("kfold"), Ok(Partitioner::KFold));
    assert_eq!(get_partitioner("stratified-kfold"), Ok(Partitioner::StratifiedKFold));
    assert_eq!(get_partitioner("leave-one-out"), Err(PipelineError::NotFound));
}

#[test]
fn whole_number_classes_round_towards_zero() {
    assert_eq!(
        whole_classes(&[0, NUMERIC_SCALE - 1, NUMERIC_SCALE, -NUMERIC_SCALE + 1, -NUMERIC_SCALE, 250_000_000, i64::MIN]),
        vec![0, 0, 1, 0, -1, 2, -92_233_720_368]
    );
}

#[test]
fn stratified_by_whole_number_classes() {
    let labels: Vec<Numeric> = vec![10, 20, 30, 40, NUMERIC_SCALE, NUMERIC_SCALE + 5, 50, 60];
    let table = frame_of(vec![labels.clone()]);
    let mut rng = StdRng::seed_from_u64(8);
    let folds = StratifiedCrossValidation::partition(&table, 0, 2, &mut rng).unwrap();
    assert_eq!(folds.len(), 2);
    for (train, validation) in folds.iter() {
        assert_eq!(validation.iter().filter(|&&row| labels[row] >= NUMERIC_SCALE).count(), 1);
        assert_eq!(validation.iter().filter(|&&row| labels[row] < NUMERIC_SCALE).count(), 3);
        assert_eq!(train.len(), 4);
    }
    assert_eq!(
        StratifiedCrossValidation::partition(&table, 1, 2, &mut rng),
        Err(PipelineError::InvalidParams)
    );
    assert_eq!(
        StratifiedCrossValidation::partition(&table, 0, 1, &mut rng),
        Err(PipelineError::InvalidParams)
    );
}

#[test]
fn kfold_partition_shuffles_the_rows() {
    let table = frame_of(vec![vec![0; 12]]);
    let in_order: Vec<usize> = (0..12).collect();
    let mut shuffled = 0;
    for seed in 0..5 {
        let mut rng = StdRng::seed_from_u64(seed);
        let folds = KFold::partition(&table, 0, &folds_parameter(3), &mut rng).unwrap();
        let dealt: Vec<usize> = folds.iter().flat_map(|(_, validation)| validation.iter().copied()).collect();
        assert_eq!(sorted(dealt.clone()), in_order);
        if dealt != in_order {
            shuffled += 1;
        }
    }
    assert!(shuffled > 0);
}

#[test]
fn stratified_partition_shuffles_within_classes() {
    let table = frame_of(vec![vec![0, 0, 0, 0, 0, 0, 1, 1, 1, 1, 1, 1]]);
    let mut orders = Vec::new();
    for seed in 0..5 {
        let mut rng = StdRng::seed_from_u64(seed);
        let folds = StratifiedKFold::partition(&table, 0, &folds_parameter(2), &mut rng).unwrap();
        assert_eq!(folds.len(), 2);
        for (train, validation) in folds.iter() {
            assert_eq!(validation.iter().filter(|&&row| row < 6).count(), 3);
            assert_eq!(train.iter().filter(|&&row| row < 6).count(), 3);
        }
        orders.push(folds[0].1.clone());
    }
    assert!(orders.iter().any(|order| *order != orders[0]) || orders[0] != vec![0, 1, 2, 6, 7, 8]);
}

#[test]
fn stratified_last_fold_takes_all_that_is_left_of_a_class() {
    let groups = vec![(0..7).collect::<Vec<usize>>()];
    let folds = stratified_split(&groups, 4);
    let sizes: Vec<usize> = folds.iter().map(|(_, validation)| validation.len()).collect();
    assert_eq!(sizes, vec![1, 1, 1, 4]);
    let small = vec![vec![3, 1]];
    let folds = stratified_split(&small, 3);
    assert_eq!(folds[0], (vec![3, 1], vec![]));
    assert_eq!(folds[1], (vec![3, 1], vec![]));
    assert_eq!(folds[2], (vec![], vec![3, 1]));
}

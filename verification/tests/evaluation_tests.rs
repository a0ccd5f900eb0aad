use pipeline::dictionary::Dictionary;
use pipeline::evaluation::classification_score::ClassificationScoreEvaluator;
use pipeline::evaluation::mse::MeanSquaredErrorEvaluator;
use pipeline::evaluation::{get_evaluator, Evaluator};
use pipeline::models::null::NullRegressionModelTrainer;
use pipeline::text::{count_to_string, numeric_to_string};
use pipeline::models::get_model_builder;
use pipeline::models::ModelBuilder;
use pipeline::tuning::grid_search_tuning::{count_combinations, fit, get_hyperparameter_combinations};
use pipeline::types::{Numeric, PipelineError, NUMERIC_SCALE};

const ONE: Numeric = NUMERIC_SCALE;

fn column(values: &[Numeric]) -> Vec<Vec<Numeric>> {
    values.iter().map(|&v| vec![v]).collect()
}

fn entries(settings: &Dictionary<String>) -> Vec<(String, String)> {
    (0..settings.len()).map(|at| (settings.name_at(at).clone(), settings.value_at(at).clone())).collect()
}

#[test]
fn classification_score_is_the_share_of_misses() {
    let samples = column(&[0, ONE, ONE, 0]);
    assert_eq!(ClassificationScoreEvaluator::evaluate(&[0, ONE, 0, ONE], &samples, 0), Ok(ONE / 2));
    assert_eq!(ClassificationScoreEvaluator::evaluate(&[ONE, 0, 0, ONE], &samples, 0), Ok(ONE));
    assert_eq!(ClassificationScoreEvaluator::evaluate(&[0, 0, 0], &column(&[0, 0, 5]), 0), Ok(33_333_333));
}

#[test]
fn classification_score_of_the_classes_themselves_is_zero() {
    let classes = [3, -4, 5 * ONE, i64::MIN, i64::MAX];
    assert_eq!(ClassificationScoreEvaluator::evaluate(&classes, &column(&classes), 0), Ok(0));
}

#[test]
fn classification_score_allows_one_unit() {
    assert_eq!(ClassificationScoreEvaluator::evaluate(&[1, -1, 2], &column(&[0, 0, 0]), 0), Ok(33_333_333));
}

#[test]
fn evaluators_reject_what_cannot_be_scored() {
    let samples = column(&[0, 1]);
    assert_eq!(ClassificationScoreEvaluator::evaluate(&[0], &samples, 0), Err(PipelineError::ShapeMismatch));
    assert_eq!(MeanSquaredErrorEvaluator::evaluate(&[0, 1, 2], &samples, 0), Err(PipelineError::ShapeMismatch));
    assert_eq!(ClassificationScoreEvaluator::evaluate(&[], &column(&[]), 0), Err(PipelineError::EmptyInput));
    assert_eq!(MeanSquaredErrorEvaluator::evaluate(&[], &column(&[]), 0), Err(PipelineError::EmptyInput));
    assert_eq!(ClassificationScoreEvaluator::evaluate(&[0, 1], &samples, 1), Err(PipelineError::OutOfBounds));
    assert_eq!(MeanSquaredErrorEvaluator::evaluate(&[0, 1], &samples, 1), Err(PipelineError::OutOfBounds));
}

#[test]
fn mean_squared_error_of_null_regression() {
    let training: Vec<Vec<Numeric>> = (1..=5).map(|v| vec![v * ONE]).collect();
    let model = NullRegressionModelTrainer::new().build(&training, 0).unwrap();
    let predictions: Vec<Numeric> = training.iter().map(|sample| model.predict(sample)).collect();
    assert_eq!(predictions, vec![3 * ONE; 5]);
    assert_eq!(MeanSquaredErrorEvaluator::evaluate(&predictions, &training, 0), Ok(2 * ONE));
}

#[test]
fn mean_squared_error_laws_on_values() {
    let first = [ONE, 2 * ONE, -3 * ONE];
    let second = [2 * ONE, 2 * ONE, ONE];
    assert_eq!(MeanSquaredErrorEvaluator::evaluate(&first, &column(&first), 0), Ok(0));
    let one_way = MeanSquaredErrorEvaluator::evaluate(&first, &column(&second), 0).unwrap();
    let other_way = MeanSquaredErrorEvaluator::evaluate(&second, &column(&first), 0).unwrap();
    assert_eq!(one_way, other_way);
    assert_eq!(one_way, 566_666_666);
    assert!(one_way >= 0);
}

#[test]
fn mean_squared_error_stops_at_the_largest_number() {
    assert_eq!(MeanSquaredErrorEvaluator::evaluate(&[i64::MIN], &column(&[i64::MAX]), 0), Ok(i64::MAX));
    assert_eq!(
        MeanSquaredErrorEvaluator::evaluate(&[i64::MIN, i64::MIN], &column(&[i64::MAX, i64::MAX]), 0),
        Ok(i64::MAX)
    );
}

#[test]
fn evaluators_go_by_name() {
    assert_eq!(get_evaluator("mse"), Ok(Evaluator::MeanSquaredError));
    assert_eq!(get_evaluator("classification-score"), Ok(Evaluator::ClassificationScore));
    assert_eq!(get_evaluator("accuracy"), Err(PipelineError::NotFound));
    let samples = column(&[0, 4 * ONE]);
    assert_eq!(Evaluator::MeanSquaredError.evaluate(&[0, 0], &samples, 0), Ok(8 * ONE));
    assert_eq!(Evaluator::ClassificationScore.evaluate(&[0, 0], &samples, 0), Ok(ONE / 2));
}

#[test]
fn numbers_are_written_in_decimal() {
    assert_eq!(numeric_to_string(0), "0");
    assert_eq!(numeric_to_string(3 * ONE), "3");
    assert_eq!(numeric_to_string(ONE / 2), "0.5");
    assert_eq!(numeric_to_string(1), "0.00000001");
    assert_eq!(numeric_to_string(-225_000_000), "-2.25");
    assert_eq!(numeric_to_string(1_234_567_890_120), "12345.6789012");
    assert_eq!(numeric_to_string(i64::MIN), "-92233720368.54775808");
    assert_eq!(numeric_to_string(i64::MAX), "92233720368.54775807");
    assert_eq!(count_to_string(0), "0");
    assert_eq!(count_to_string(1050), "1050");
}

#[test]
fn grid_has_every_combination_in_order() {
    let mut grid: Dictionary<Vec<Numeric>> = Dictionary::new();
    grid.insert("num_neighbors".to_string(), vec![ONE, 3 * ONE, 5 * ONE]);
    grid.insert("epsilon".to_string(), vec![1, ONE / 2]);
    let combinations = get_hyperparameter_combinations(&grid).unwrap();
    assert_eq!(combinations.len(), 6);
    let written: Vec<Vec<(String, String)>> = combinations.iter().map(entries).collect();
    let expected: Vec<Vec<(String, String)>> = [
        ("1", "0.00000001"),
        ("1", "0.5"),
        ("3", "0.00000001"),
        ("3", "0.5"),
        ("5", "0.00000001"),
        ("5", "0.5"),
    ]
        .iter()
        .map(|(k, e)| vec![("num_neighbors".to_string(), k.to_string()), ("epsilon".to_string(), e.to_string())])
        .collect();
    assert_eq!(written, expected);
    for combination in combinations.iter() {
        assert!(combination.get("num_neighbors").is_some());
        assert!(combination.get("epsilon").is_some());
    }
}

#[test]
fn grid_sets_every_pick_exactly_once() {
    let lists: [(&str, Vec<Numeric>); 3] =
        [("a", vec![ONE, 2 * ONE]), ("b", vec![3 * ONE, 4 * ONE, 5 * ONE]), ("c", vec![6 * ONE, 7 * ONE])];
    let mut grid: Dictionary<Vec<Numeric>> = Dictionary::new();
    for (name, list) in lists.iter() {
        grid.insert(name.to_string(), list.clone());
    }
    let written: Vec<Vec<(String, String)>> =
        get_hyperparameter_combinations(&grid).unwrap().iter().map(entries).collect();
    assert_eq!(written.len(), 12);
    for (i, a) in lists[0].1.iter().enumerate() {
        for (j, b) in lists[1].1.iter().enumerate() {
            for (k, c) in lists[2].1.iter().enumerate() {
                let pick = vec![
                    ("a".to_string(), numeric_to_string(*a)),
                    ("b".to_string(), numeric_to_string(*b)),
                    ("c".to_string(), numeric_to_string(*c)),
                ];
                let places: Vec<usize> = (0..written.len()).filter(|&at| written[at] == pick).collect();
                assert_eq!(places, vec![(i * 3 + j) * 2 + k]);
            }
        }
    }
}

#[test]
fn grid_without_names_has_one_empty_combination() {
    let grid: Dictionary<Vec<Numeric>> = Dictionary::new();
    let combinations = get_hyperparameter_combinations(&grid).unwrap();
    assert_eq!(combinations.len(), 1);
    assert_eq!(combinations[0].len(), 0);
}

#[test]
fn grid_with_an_empty_list_has_no_combination() {
    let mut grid: Dictionary<Vec<Numeric>> = Dictionary::new();
    grid.insert("num_neighbors".to_string(), vec![ONE, 3 * ONE]);
    grid.insert("gamma".to_string(), vec![]);
    assert_eq!(get_hyperparameter_combinations(&grid).unwrap().len(), 0);
}

#[test]
fn combinations_are_counted_by_product_of_lengths() {
    assert_eq!(count_combinations(&vec![vec![1, 2], vec![3, 4, 5], vec![6]]), Some(6));
    assert_eq!(count_combinations(&vec![vec![1, 2], vec![], vec![6]]), Some(0));
    assert_eq!(count_combinations(&vec![]), Some(1));
}

#[test]
fn fit_leaves_the_trainer_with_the_last_combination() {
    let mut grid: Dictionary<Vec<Numeric>> = Dictionary::new();
    grid.insert("num_neighbors".to_string(), vec![ONE, 3 * ONE]);
    grid.insert("epsilon".to_string(), vec![2, 4]);
    let mut builder = get_model_builder("knn-edited").unwrap();
    assert_eq!(fit(&grid, &mut builder), Ok(0));
    match builder {
        ModelBuilder::KnnEdited(trainer) => {
            assert_eq!(
                entries(trainer.hyperparameters.as_ref().unwrap()),
                vec![
                    ("num_neighbors".to_string(), "3".to_string()),
                    ("epsilon".to_string(), "0.00000004".to_string())
                ]
            );
            assert!(trainer.show_voronoi);
        }
        _ => panic!("the kind of the trainer has changed"),
    }
}

#[test]
fn grid_that_names_a_hyperparameter_twice_takes_the_later_list() {
    let mut grid: Dictionary<Vec<Numeric>> = Dictionary::new();
    grid.insert("num_neighbors".to_string(), vec![ONE, 3 * ONE]);
    grid.insert("epsilon".to_string(), vec![1]);
    grid.insert("num_neighbors".to_string(), vec![5 * ONE, 7 * ONE, 9 * ONE]);
    let combinations = get_hyperparameter_combinations(&grid).unwrap();
    assert_eq!(combinations.len(), 3);
    assert_eq!(
        entries(&combinations[1]),
        vec![("num_neighbors".to_string(), "7".to_string()), ("epsilon".to_string(), "0.00000001".to_string())]
    );
}

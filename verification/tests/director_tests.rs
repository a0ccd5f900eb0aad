use pipeline::config::{
    ConfigStruct, InputStageConfigs, ModelConfigs, TrainingConfigs, TunningConfigs, ValidationConfigs,
};
use pipeline::data::column::Column;
use pipeline::data::data_frame::DataFrame;
use pipeline::dictionary::Dictionary;
use pipeline::evaluation::Evaluator;
use pipeline::models::{get_model_builder, Model, ModelBuilder};
use rand::rngs::StdRng;
use rand::SeedableRng;
use pipeline::trainers::kx2_folds::Kx2Folds;
use pipeline::trainers::simple::Simple;
use pipeline::trainers::{
    fit_and_score, gather_rows, get_strategy, get_task, select_best, train_and_evaluate, write_parameters,
    Outcome, Step, Strategy, Task, Trial,
};
use pipeline::tuning::grid_search_tuning::get_hyperparameter_combinations;
use pipeline::types::{Numeric, PipelineError, NUMERIC_SCALE};
use pipeline::validation::Partitioner;

const ONE: Numeric = NUMERIC_SCALE;

/// `copies` times five rows at 0 of class 0 and five rows at 10 of class 1.
fn two_cluster_frame(copies: usize) -> DataFrame<Numeric> {
    let mut features = Vec::new();
    let mut classes = Vec::new();
    for _ in 0..copies {
        for _ in 0..5 {
            features.push(0);
            classes.push(0);
        }
        for _ in 0..5 {
            features.push(10 * ONE);
            classes.push(ONE);
        }
    }
    let mut x = Column::new();
    x.append(features);
    let mut y = Column::new();
    y.append(classes);
    let mut table = DataFrame::new();
    table.add_column(x);
    table.add_column(y);
    table
}

fn folds_parameter(k: i64) -> Dictionary<Numeric> {
    let mut parameters = Dictionary::new();
    parameters.insert("num_folds".to_string(), k * ONE);
    parameters
}

fn configs(model: &str, task: &str, evaluation: &str, partitioner: &str, folds: i64, strategy: &str) -> ConfigStruct {
    let mut grid = Dictionary::new();
    grid.insert("num_neighbors".to_string(), vec![ONE, 3 * ONE, 5 * ONE]);
    ConfigStruct {
        input: InputStageConfigs {
            address: String::new(),
            format: "csv".to_string(),
            missing_values: Vec::new(),
            headers: false,
        },
        parsing: Vec::new(),
        scrub: None,
        transform: None,
        training: TrainingConfigs {
            model: ModelConfigs { name: model.to_string(), task: task.to_string(), parameters: None },
            evaluation: evaluation.to_string(),
            partitioning: ValidationConfigs { strategy: partitioner.to_string(), parameters: folds_parameter(folds) },
            strategy: strategy.to_string(),
            label_index: 1,
            tunning: TunningConfigs { parameters: grid },
        },
    }
}

fn sorted(mut rows: Vec<usize>) -> Vec<usize> {
    rows.sort();
    rows
}

fn outcome(metric: Numeric) -> Outcome {
    Outcome { metric, hyperparameters: Dictionary::new() }
}

fn entries(settings: &Dictionary<String>) -> Vec<(String, String)> {
    (0..settings.len()).map(|at| (settings.name_at(at).clone(), settings.value_at(at).clone())).collect()
}

#[test]
fn pure_knn_on_two_classes_has_no_validation_error() {
    let table = two_cluster_frame(1);
    let mut rng = StdRng::seed_from_u64(11);
    let mut builder = get_model_builder("knn-simple").unwrap();
    let mut settings = Dictionary::new();
    settings.insert("num_neighbors".to_string(), "1".to_string());
    let (mut director, first) =
        Simple::begin(&table, 1, Partitioner::StratifiedKFold, &folds_parameter(5), &settings, &mut rng).unwrap();
    let mut trial = first;
    let mut folds = 0;
    loop {
        assert_eq!(trial.test.len(), 2);
        assert_eq!(trial.train.len(), 8);
        let scored =
            fit_and_score(&table, 1, &trial, &mut builder, Task::Classification, Evaluator::ClassificationScore)
                .unwrap();
        assert_eq!(scored.metric, 0);
        folds += 1;
        match director.advance(scored) {
            Step::Fit(next) => trial = next,
            Step::Done(score) => {
                assert_eq!(score, 0);
                break;
            }
        }
    }
    assert_eq!(folds, 5);
}

#[test]
fn simple_strategy_through_the_driver() {
    let table = two_cluster_frame(1);
    let mut rng = StdRng::seed_from_u64(5);
    let settings = configs("knn-simple", "classification", "classification-score", "stratified-kfold", 5, "simple");
    assert_eq!(train_and_evaluate(&table, &settings, &mut rng), Ok(0));
}

#[test]
fn kx2_tuning_on_two_hundred_rows() {
    let table = two_cluster_frame(20);
    let mut rng = StdRng::seed_from_u64(2024);
    let settings = configs("knn-simple", "classification", "classification-score", "stratified-kfold", 5, "kx2-folds");
    let error = train_and_evaluate(&table, &settings, &mut rng).unwrap();
    assert!(0 <= error && error <= ONE / 5);
}

#[test]
fn driver_rejects_unknown_names() {
    let table = two_cluster_frame(1);
    let mut rng = StdRng::seed_from_u64(1);
    let run = |settings: ConfigStruct, rng: &mut _| train_and_evaluate(&table, &settings, rng);
    assert_eq!(
        run(configs("knn-simple", "classification", "mse", "kfold", 2, "bootstrap"), &mut rng),
        Err(PipelineError::NotFound)
    );
    assert_eq!(
        run(configs("knn-simple", "classification", "mse", "shuffle", 2, "simple"), &mut rng),
        Err(PipelineError::NotFound)
    );
    assert_eq!(
        run(configs("knn-simple", "classification", "f1", "kfold", 2, "simple"), &mut rng),
        Err(PipelineError::NotFound)
    );
    assert_eq!(
        run(configs("forest", "classification", "mse", "kfold", 2, "simple"), &mut rng),
        Err(PipelineError::NotFound)
    );
    assert_eq!(
        run(configs("knn-simple", "ranking", "mse", "kfold", 2, "simple"), &mut rng),
        Err(PipelineError::InvalidConfig)
    );
    assert_eq!(
        run(configs("knn-simple", "classification", "mse", "kfold", 1, "simple"), &mut rng),
        Err(PipelineError::InvalidParams)
    );
    assert_eq!(
        run(configs("knn-simple", "regression", "mse", "kfold", 2, "simple"), &mut rng),
        Err(PipelineError::InvalidConfig)
    );
}

#[test]
fn driver_tests_the_partitioner_name_for_both_strategies() {
    let table = two_cluster_frame(2);
    let mut rng = StdRng::seed_from_u64(1);
    let settings = configs("knn-simple", "classification", "classification-score", "shuffle", 2, "kx2-folds");
    assert_eq!(train_and_evaluate(&table, &settings, &mut rng), Err(PipelineError::NotFound));
}

#[test]
fn kx2_with_the_baseline_classifier_is_wrong_on_half() {
    // ten rows of each class: every half of the sixteen working rows holds
    // four of each, so the constant is wrong on half of every testing half
    let table = two_cluster_frame(2);
    let mut rng = StdRng::seed_from_u64(77);
    let settings = configs("null-classifier", "classification", "classification-score", "stratified-kfold", 5, "kx2-folds");
    assert_eq!(train_and_evaluate(&table, &settings, &mut rng), Ok(ONE / 2));
}

#[test]
fn kx2_without_the_label_column_is_rejected() {
    let table = two_cluster_frame(2);
    let mut rng = StdRng::seed_from_u64(1);
    let mut settings = configs("knn-simple", "classification", "classification-score", "kfold", 2, "kx2-folds");
    settings.training.label_index = 2;
    assert_eq!(train_and_evaluate(&table, &settings, &mut rng), Err(PipelineError::InvalidParams));
}

#[test]
fn driver_without_candidates_has_nothing_to_try() {
    let table = two_cluster_frame(2);
    let mut rng = StdRng::seed_from_u64(1);
    let mut settings = configs("knn-simple", "classification", "classification-score", "kfold", 2, "kx2-folds");
    let mut grid = Dictionary::new();
    grid.insert("num_neighbors".to_string(), Vec::new());
    settings.training.tunning = TunningConfigs { parameters: grid };
    assert_eq!(train_and_evaluate(&table, &settings, &mut rng), Err(PipelineError::NoCandidates));
}

#[test]
fn null_regression_through_the_driver() {
    let mut x = Column::new();
    x.append(vec![0; 6]);
    let mut y = Column::new();
    y.append(vec![ONE, 2 * ONE, 3 * ONE, ONE, 2 * ONE, 3 * ONE]);
    let mut table = DataFrame::new();
    table.add_column(x);
    table.add_column(y);
    let mut rng = StdRng::seed_from_u64(3);
    let settings = configs("null-regression", "regression", "mse", "stratified-kfold", 2, "simple");
    // every fold trains on one row of each class, so the model answers 2.0,
    // and the fold validates on the other three rows
    assert_eq!(train_and_evaluate(&table, &settings, &mut rng), Ok(66_666_666));
}

#[test]
fn kx2_runs_ten_candidates_then_ten_folds() {
    let table = two_cluster_frame(2);
    let labels: Vec<Numeric> = table.get_column_idx(1).unwrap().values().to_vec();
    let mut grid = Dictionary::new();
    grid.insert("num_neighbors".to_string(), vec![ONE, 3 * ONE]);
    let combinations = get_hyperparameter_combinations(&grid).unwrap();
    let mut rng = StdRng::seed_from_u64(9);
    let (mut director, first) = Kx2Folds::begin(&labels, combinations, &mut rng).unwrap();
    let holdout = first.test.clone();
    assert_eq!(holdout.len(), 4);
    let mut trial = first;
    let mut handed = 0;
    let mut result = None;
    // the scores of the candidates: the fourth is the best by size
    let scores: [Numeric; 20] = [50, -40, 30, -7, 7, 60, 70, 80, 90, 99, 10, 20, 30, 40, 50, 60, 70, 80, 90, 101];
    while result.is_none() {
        if handed < 10 {
            assert_eq!(trial.test, holdout);
            assert_eq!(trial.train.len(), 8);
            for row in trial.train.iter() {
                assert!(!holdout.contains(row));
            }
            let written = entries(&trial.hyperparameters);
            assert!(written == vec![("num_neighbors".to_string(), "1".to_string())]
                || written == vec![("num_neighbors".to_string(), "3".to_string())]);
        } else {
            assert_eq!(entries(&trial.hyperparameters), vec![("marker".to_string(), "3".to_string())]);
            let mut all = trial.train.clone();
            all.extend(trial.test.iter().copied());
            assert_eq!(all.len(), 16);
            for row in all.iter() {
                assert!(!holdout.contains(row));
            }
            assert_eq!(sorted(all.clone()).windows(2).filter(|pair| pair[0] == pair[1]).count(), 0);
        }
        let mut reported = Dictionary::new();
        reported.insert("marker".to_string(), handed.to_string());
        let step = director.advance(Outcome { metric: scores[handed], hyperparameters: reported }, &mut rng);
        handed += 1;
        match step {
            Step::Fit(next) => trial = next,
            Step::Done(mean) => result = Some(mean),
        }
    }
    assert_eq!(handed, 20);
    assert_eq!(director.trials_taken(), 20);
    assert_eq!(result, Some(55));
}

#[test]
fn kx2_halves_of_a_round_split_the_working_rows() {
    let table = two_cluster_frame(2);
    let labels: Vec<Numeric> = table.get_column_idx(1).unwrap().values().to_vec();
    let mut rng = StdRng::seed_from_u64(4);
    let (mut director, first) = Kx2Folds::begin(&labels, vec![Dictionary::new()], &mut rng).unwrap();
    let second = match director.advance(outcome(1), &mut rng) {
        Step::Fit(trial) => trial,
        Step::Done(_) => panic!("one outcome does not end the run"),
    };
    let mut working = first.train.clone();
    working.extend(second.train.iter().copied());
    let mut all = working.clone();
    all.extend(first.test.iter().copied());
    assert_eq!(sorted(all), (0..20).collect::<Vec<usize>>());
    assert_eq!(first.test, second.test);
    // each half holds its share of both classes
    for half in [&first.train, &second.train] {
        assert_eq!(half.iter().filter(|&&row| labels[row] == ONE).count(), 4);
        assert_eq!(half.iter().filter(|&&row| labels[row] == 0).count(), 4);
    }
}

#[test]
fn kx2_without_combinations_has_no_candidates() {
    let mut rng = StdRng::seed_from_u64(4);
    assert_eq!(Kx2Folds::begin(&[0, 1, 0, 1], Vec::new(), &mut rng).err(), Some(PipelineError::NoCandidates));
}

#[test]
fn best_candidate_is_first_of_smallest_size() {
    let scores = vec![outcome(50), outcome(-7), outcome(7), outcome(-50), outcome(8)];
    assert_eq!(select_best(&scores), 1);
    assert_eq!(select_best(&vec![outcome(i64::MIN), outcome(i64::MAX)]), 1);
    assert_eq!(select_best(&vec![outcome(3)]), 0);
}

#[test]
fn strategies_and_tasks_go_by_name() {
    assert_eq!(get_strategy("simple"), Ok(Strategy::Simple));
    assert_eq!(get_strategy("kx2-folds"), Ok(Strategy::Kx2Folds));
    assert_eq!(get_strategy("kx3-folds"), Err(PipelineError::NotFound));
    assert_eq!(get_task("regression"), Ok(Task::Regression));
    assert_eq!(get_task("classification"), Ok(Task::Classification));
    assert_eq!(get_task("clustering"), Err(PipelineError::InvalidConfig));
}

#[test]
fn model_builders_go_by_name() {
    assert!(matches!(get_model_builder("null-regression"), Ok(ModelBuilder::NullRegression(_))));
    assert!(matches!(get_model_builder("null-classifier"), Ok(ModelBuilder::NullClassifier(_))));
    assert!(matches!(get_model_builder("knn-simple"), Ok(ModelBuilder::KnnSimple(_))));
    assert!(matches!(get_model_builder("knn-condensed"), Ok(ModelBuilder::KnnCondensed(_))));
    assert!(matches!(get_model_builder("knn-edited"), Ok(ModelBuilder::KnnEdited(_))));
    assert!(matches!(get_model_builder("svm"), Err(PipelineError::NotFound)));
}

#[test]
fn built_models_report_their_settings() {
    let training = vec![vec![0, 0], vec![10, ONE]];
    let mut builder = get_model_builder("knn-condensed").unwrap();
    let mut settings = Dictionary::new();
    settings.insert("num_neighbors".to_string(), "3".to_string());
    settings.insert("epsilon".to_string(), "0.25".to_string());
    builder.with_hyperparameters(&settings).unwrap();
    let model = builder.build(&training, 1).unwrap();
    assert_eq!(model.type_id(), "KNearestNeighbor");
    assert_eq!(
        entries(&model.get_hyperparameters()),
        vec![("num_neighbors".to_string(), "3".to_string()), ("epsilon".to_string(), "0.25".to_string())]
    );
    // both references vote, one for each class, and the nearer one wins
    assert_eq!(model.label(&[9, 0]), ONE);
    assert_eq!(model.label(&[1, 0]), 0);
    let mut baseline = get_model_builder("null-classifier").unwrap();
    let constant = baseline.build(&training, 1).unwrap();
    assert!(matches!(constant, Model::Null(_)));
    assert_eq!(entries(&constant.get_hyperparameters()), vec![("return_value".to_string(), "0".to_string())]);
    assert_eq!(constant.label(&[9, 0]), 0);
}

#[test]
fn rows_are_gathered_in_the_given_order() {
    let table = two_cluster_frame(1);
    assert_eq!(gather_rows(&table, &vec![7, 0]), Ok(vec![vec![10 * ONE, ONE], vec![0, 0]]));
    assert_eq!(gather_rows(&table, &vec![0, 10]), Err(PipelineError::OutOfBounds));
    let empty: DataFrame<Numeric> = DataFrame::new();
    assert_eq!(gather_rows(&empty, &vec![0]), Err(PipelineError::EmptyInput));
    assert_eq!(gather_rows(&empty, &vec![]), Ok(vec![]));
}

#[test]
fn trials_fail_where_rows_or_settings_are_unusable() {
    let table = two_cluster_frame(1);
    let mut builder = get_model_builder("knn-simple").unwrap();
    let trial = |train: Vec<usize>, test: Vec<usize>, neighbors: &str| {
        let mut settings = Dictionary::new();
        settings.insert("num_neighbors".to_string(), neighbors.to_string());
        Trial { train, test, hyperparameters: settings }
    };
    let run = |trial: &Trial, builder: &mut ModelBuilder, task: Task| {
        fit_and_score(&table, 1, trial, builder, task, Evaluator::ClassificationScore).map(|scored| scored.metric)
    };
    assert_eq!(run(&trial(vec![0, 5], vec![1, 6, 2], "1"), &mut builder, Task::Classification), Ok(0));
    assert_eq!(run(&trial(vec![0, 1], vec![5, 6, 2], "1"), &mut builder, Task::Classification), Ok(66_666_666));
    assert_eq!(
        run(&trial(vec![0, 5], vec![1], "1"), &mut builder, Task::Regression),
        Err(PipelineError::InvalidConfig)
    );
    assert_eq!(
        run(&trial(vec![0, 50], vec![1], "1"), &mut builder, Task::Classification),
        Err(PipelineError::OutOfBounds)
    );
    assert_eq!(run(&trial(vec![], vec![1], "1"), &mut builder, Task::Classification), Err(PipelineError::EmptyInput));
    assert_eq!(run(&trial(vec![0], vec![], "1"), &mut builder, Task::Classification), Err(PipelineError::EmptyInput));
    assert_eq!(run(&trial(vec![0], vec![1], "0"), &mut builder, Task::Classification), Err(PipelineError::InvalidConfig));
    assert_eq!(run(&trial(vec![0], vec![1], "one"), &mut builder, Task::Classification), Err(PipelineError::Numeric));
}

#[test]
fn parameters_are_written_as_settings() {
    let mut parameters = Dictionary::new();
    parameters.insert("num_neighbors".to_string(), 3 * ONE);
    parameters.insert("epsilon".to_string(), 5);
    assert_eq!(
        entries(&write_parameters(&parameters)),
        vec![("num_neighbors".to_string(), "3".to_string()), ("epsilon".to_string(), "0.00000005".to_string())]
    );
}

use pipeline::dictionary::Dictionary;
use pipeline::models::knn::{distance, KNearestNeighbor};
use pipeline::models::knn_condensed::CondensedKNearestNeighborTrainer;
use pipeline::models::knn_edited::EditedKNearestNeighborTrainer;
use pipeline::models::knn_simple::SimpleKNearestNeighborTrainer;
use pipeline::models::mode;
use pipeline::models::null::{NullClassificationModelTrainer, NullModel, NullRegressionModelTrainer};
use pipeline::types::{Numeric, PipelineError, NUMERIC_SCALE};

const ONE: Numeric = NUMERIC_SCALE;

/// Ten samples of one feature and a class: five at 0 of class 0, five at 10 of class 1.
fn two_clusters() -> Vec<Vec<Numeric>> {
    let mut samples = Vec::new();
    for _ in 0..5 {
        samples.push(vec![0, 0]);
    }
    for _ in 0..5 {
        samples.push(vec![10 * ONE, ONE]);
    }
    samples
}

fn settings(entries: &[(&str, &str)]) -> Dictionary<String> {
    let mut dictionary = Dictionary::new();
    for (name, value) in entries {
        dictionary.insert(name.to_string(), value.to_string());
    }
    dictionary
}

#[test]
fn distance_leaves_the_class_out() {
    assert_eq!(distance(&[3, 100, 0], &[0, -100, 4], 1), 25);
    assert_eq!(distance(&[3, 0, 100], &[0, 4, -100], 2), 25);
    assert_eq!(distance(&[100, 3, 0], &[-100, 0, 4], 0), 25);
}

#[test]
fn distance_pairs_features_up_to_the_shorter_sample() {
    assert_eq!(distance(&[1, 2, 3, 9], &[1, 2, 9], 5), 36);
    assert_eq!(distance(&[], &[1, 2], 0), 0);
}

#[test]
fn distance_stops_at_the_largest_value() {
    let far = distance(&[i64::MIN, i64::MIN, 0], &[i64::MAX, i64::MAX, 0], 2);
    assert_eq!(far, u128::MAX);
    let near = distance(&[i64::MIN, 0], &[i64::MAX, 0], 1);
    assert_eq!(near, (u64::MAX as u128) * (u64::MAX as u128));
}

#[test]
fn mode_breaks_ties_by_first_seen() {
    assert_eq!(mode(&vec![4, 7, 7, 4, 9]), 4);
    assert_eq!(mode(&vec![7, 4, 4, 7, 9]), 7);
    assert_eq!(mode(&vec![1, 2, 2, 3, 3, 3]), 3);
    assert_eq!(mode(&vec![5]), 5);
}

#[test]
fn neighbors_are_sorted_by_distance_then_place() {
    let model = KNearestNeighbor {
        label_examples: vec![vec![5, 0], vec![1, 1], vec![-1, 2], vec![0, 3]],
        label_index: 1,
        num_neighbors: 2,
        epsilon: 1,
    };
    assert_eq!(model.neighbors(&[0, 0]), vec![(0, 3), (1, 1), (1, 2), (25, 0)]);
    assert_eq!(model.nearest_neighbors(&[0, 0]), vec![(3, 0), (1, 1)]);
}

#[test]
fn label_is_the_most_common_class_of_the_nearest() {
    let model = KNearestNeighbor {
        label_examples: vec![vec![0, 7], vec![1, 8], vec![2, 8], vec![50, 9]],
        label_index: 1,
        num_neighbors: 3,
        epsilon: 1,
    };
    assert_eq!(model.label(&[0, 0]), 8);
    let single = KNearestNeighbor { num_neighbors: 1, ..model };
    assert_eq!(single.label(&[0, 0]), 7);
}

#[test]
fn label_with_more_neighbors_than_references_lets_all_vote() {
    let model = KNearestNeighbor {
        label_examples: vec![vec![0, 7], vec![1, 8], vec![2, 8]],
        label_index: 1,
        num_neighbors: 10,
        epsilon: 1,
    };
    assert_eq!(model.label(&[0, 0]), 8);
}

#[test]
fn label_gives_the_same_answer_twice() {
    let mut trainer = SimpleKNearestNeighborTrainer::new();
    let model = trainer.build(&two_clusters(), 1).unwrap();
    let first = model.label(&[4 * ONE, 0]);
    let second = model.label(&[4 * ONE, 0]);
    assert_eq!(first, 0);
    assert_eq!(first, second);
}

#[test]
fn simple_trainer_keeps_all_samples() {
    let mut trainer = SimpleKNearestNeighborTrainer::new();
    let model = trainer.build(&two_clusters(), 1).unwrap();
    assert_eq!(model.label_examples, two_clusters());
    assert_eq!(model.num_neighbors, 1);
    assert_eq!(model.label_index, 1);
    assert_eq!(model.epsilon, 1);
    assert_eq!(model.type_id(), "KNearestNeighbor");
}

#[test]
fn condensed_shrinks_to_first_of_each_class() {
    let mut trainer = CondensedKNearestNeighborTrainer::new();
    let model = trainer.build(&two_clusters(), 1).unwrap();
    assert_eq!(model.label_examples, vec![vec![0, 0], vec![10 * ONE, ONE]]);
}

#[test]
fn condensed_references_come_from_training() {
    let training = vec![vec![0, 0], vec![3, ONE], vec![1, 0], vec![4, ONE], vec![2, ONE], vec![9, 0]];
    let mut trainer = CondensedKNearestNeighborTrainer::new();
    let model = trainer.build(&training, 1).unwrap();
    assert_eq!(model.label_examples, vec![vec![0, 0], vec![3, ONE], vec![9, 0]]);
    for reference in model.label_examples.iter() {
        assert!(training.contains(reference));
    }
}

#[test]
fn edited_drops_what_the_rest_gets_right() {
    // the last class-1 sample is got right by the other four and goes, and so
    // on down to the first of each class, which only the other class is left
    // to answer for
    let mut trainer = EditedKNearestNeighborTrainer::new();
    let model = trainer.build(&two_clusters(), 1).unwrap();
    assert_eq!(model.label_examples, vec![vec![10 * ONE, ONE], vec![0, 0]]);
}

#[test]
fn edited_keeps_all_where_every_reference_votes() {
    // with all references voting, the class of a sample that is taken out
    // is outvoted five to four by the other class, so no sample can go
    let mut trainer = EditedKNearestNeighborTrainer::new();
    trainer.with_hyperparameters(&settings(&[("num_neighbors", "10")])).unwrap();
    let model = trainer.build(&two_clusters(), 1).unwrap();
    assert_eq!(model.label_examples.len(), 10);
    let mut kept = model.label_examples.clone();
    kept.sort();
    let mut all = two_clusters();
    all.sort();
    assert_eq!(kept, all);
}

#[test]
fn condensed_shrinks_where_every_reference_votes() {
    let mut trainer = CondensedKNearestNeighborTrainer::new();
    trainer.with_hyperparameters(&settings(&[("num_neighbors", "10")])).unwrap();
    let model = trainer.build(&two_clusters(), 1).unwrap();
    assert_eq!(model.label_examples, vec![vec![0, 0], vec![10 * ONE, ONE]]);
}

#[test]
fn edited_keeps_a_sample_that_the_final_references_get_right() {
    // the last sample is kept because the sample at 10 is nearest when its
    // turn comes; that sample is dropped later, and the references that are
    // left in the end give the last sample its own class
    let training = vec![vec![8, 0], vec![15, 0], vec![10, 0], vec![14, ONE], vec![12, ONE]];
    let mut trainer = EditedKNearestNeighborTrainer::new();
    let model = trainer.build(&training, 1).unwrap();
    assert_eq!(model.label_examples, vec![vec![12, ONE], vec![14, ONE], vec![15, 0], vec![8, 0]]);
    let others = KNearestNeighbor {
        label_examples: vec![vec![14, ONE], vec![15, 0], vec![8, 0]],
        label_index: 1,
        num_neighbors: 1,
        epsilon: 1,
    };
    assert_eq!(others.label(&[12, ONE]), ONE);
    assert!(!others.misjudges(&[12, ONE], 1));
    // the sample whose turn came last is got wrong by all the others
    let before_last = KNearestNeighbor {
        label_examples: vec![vec![12, ONE], vec![14, ONE], vec![15, 0]],
        label_index: 1,
        num_neighbors: 1,
        epsilon: 1,
    };
    assert!(before_last.misjudges(&[8, 0], 1));
}

#[test]
fn edited_keeps_the_only_sample() {
    let mut trainer = EditedKNearestNeighborTrainer::new();
    let model = trainer.build(&vec![vec![3, 4]], 1).unwrap();
    assert_eq!(model.label_examples, vec![vec![3, 4]]);
}

#[test]
fn trainers_reject_empty_training() {
    let none: Vec<Vec<Numeric>> = Vec::new();
    assert_eq!(SimpleKNearestNeighborTrainer::new().build(&none, 0).err(), Some(PipelineError::EmptyInput));
    assert_eq!(CondensedKNearestNeighborTrainer::new().build(&none, 0).err(), Some(PipelineError::EmptyInput));
    assert_eq!(EditedKNearestNeighborTrainer::new().build(&none, 0).err(), Some(PipelineError::EmptyInput));
    assert_eq!(NullRegressionModelTrainer::new().build(&none, 0).err(), Some(PipelineError::EmptyInput));
    assert_eq!(NullClassificationModelTrainer::new().build(&none, 0).err(), Some(PipelineError::EmptyInput));
}

#[test]
fn trainers_reject_a_class_place_outside_a_sample() {
    let training = vec![vec![1, 2, 3], vec![1, 2]];
    assert_eq!(SimpleKNearestNeighborTrainer::new().build(&training, 2).err(), Some(PipelineError::OutOfBounds));
    assert_eq!(CondensedKNearestNeighborTrainer::new().build(&training, 2).err(), Some(PipelineError::OutOfBounds));
    assert_eq!(EditedKNearestNeighborTrainer::new().build(&training, 3).err(), Some(PipelineError::OutOfBounds));
    assert_eq!(NullRegressionModelTrainer::new().build(&training, 2).err(), Some(PipelineError::OutOfBounds));
    assert!(SimpleKNearestNeighborTrainer::new().build(&training, 1).is_ok());
}

#[test]
fn trainer_reads_number_of_neighbors_from_settings() {
    let mut trainer = SimpleKNearestNeighborTrainer::new();
    trainer.with_hyperparameters(&settings(&[("num_neighbors", "3"), ("gamma", "0.5")])).unwrap();
    let model = trainer.build(&two_clusters(), 1).unwrap();
    assert_eq!(model.num_neighbors, 3);
    trainer.with_hyperparameters(&settings(&[("num_neighbors", "3"), ("num_neighbors", "+5")])).unwrap();
    assert_eq!(trainer.build(&two_clusters(), 1).unwrap().num_neighbors, 5);
}

#[test]
fn trainer_rejects_unusable_settings() {
    let mut trainer = CondensedKNearestNeighborTrainer::new();
    trainer.with_hyperparameters(&settings(&[("num_neighbors", "three")])).unwrap();
    assert_eq!(trainer.build(&two_clusters(), 1).err(), Some(PipelineError::Numeric));
    trainer.with_hyperparameters(&settings(&[("num_neighbors", "1.5")])).unwrap();
    assert_eq!(trainer.build(&two_clusters(), 1).err(), Some(PipelineError::Numeric));
    trainer.with_hyperparameters(&settings(&[("num_neighbors", "0")])).unwrap();
    assert_eq!(trainer.build(&two_clusters(), 1).err(), Some(PipelineError::InvalidConfig));
    trainer.with_hyperparameters(&settings(&[("num_neighbors", "")])).unwrap();
    assert_eq!(trainer.build(&two_clusters(), 1).err(), Some(PipelineError::Numeric));
}

#[test]
fn model_settings_leave_model_unchanged_on_error() {
    let mut model = KNearestNeighbor { label_examples: vec![vec![0, 0]], label_index: 1, num_neighbors: 2, epsilon: 1 };
    assert_eq!(
        model.set_hyperparameters(&settings(&[("num_neighbors", "4"), ("num_neighbors", "x")])),
        Err(PipelineError::Numeric)
    );
    assert_eq!(model.num_neighbors, 2);
    assert_eq!(model.set_hyperparameters(&settings(&[("num_neighbors", "4")])), Ok(()));
    assert_eq!(model.num_neighbors, 4);
}

#[test]
fn null_regression_answers_with_the_mean() {
    let training: Vec<Vec<Numeric>> = (1..=5).map(|v| vec![v * ONE]).collect();
    let model = NullRegressionModelTrainer::new().build(&training, 0).unwrap();
    assert_eq!(model.predict(&[42]), 3 * ONE);
    assert_eq!(model.predict(&[]), 3 * ONE);
    assert_eq!(model.label(&[7, 7]), 3 * ONE);
    assert_eq!(model.type_id(), "NullModel");
}

#[test]
fn null_regression_rounds_the_mean_towards_zero() {
    let up = NullRegressionModelTrainer::new().build(&vec![vec![1], vec![2]], 0).unwrap();
    assert_eq!(up.predict(&[]), 1);
    let down = NullRegressionModelTrainer::new().build(&vec![vec![-1], vec![-2]], 0).unwrap();
    assert_eq!(down.predict(&[]), -1);
    let wide = NullRegressionModelTrainer::new().build(&vec![vec![i64::MIN], vec![i64::MIN]], 0).unwrap();
    assert_eq!(wide.predict(&[]), i64::MIN);
}

#[test]
fn null_classifier_answers_with_the_mode() {
    let training = vec![vec![0, 2], vec![0, 1], vec![0, 1], vec![0, 2], vec![0, 3]];
    let model = NullClassificationModelTrainer::new().build(&training, 1).unwrap();
    assert_eq!(model.label(&[9, 9]), 2);
    assert_eq!(model.predict(&[1, 1]), 2);
}

#[test]
fn null_model_answers_all_samples_alike() {
    let model = NullModel::new(17);
    assert_eq!(model.predict(&[1, 2, 3]), model.predict(&[-5]));
    assert_eq!(model.label(&[1, 2, 3]), model.label(&[]));
}

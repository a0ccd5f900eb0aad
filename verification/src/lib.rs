//! A supervised-learning pipeline for tabular data over fixed-point numbers:
//! frames and columns, fold partitioners, nearest-neighbour models with their
//! trainers, evaluators, a grid tuner and the training director.

pub mod config;
pub mod data;
pub mod dictionary;
pub mod evaluation;
pub mod input;
pub mod models;
pub mod parsers;
pub mod random;
pub mod scrubbers;
pub mod text;
pub mod trainers;
pub mod transform;
pub mod tuning;
pub mod types;
pub mod validation;

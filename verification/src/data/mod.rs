//! Tabular containers: a named column and a frame of columns.

pub mod column;
pub mod data_frame;

//! Tuners: how the settings to try are drawn up.

pub mod grid_search_tuning;

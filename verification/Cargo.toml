[package]
name = "pipeline"
version = "0.1.0"
edition = "2021"
publish = false

[dependencies]
itertools = "0.12"
num-traits = "0.2"
plotly = "0.8"
rand = "0.8"
serde = { version = "1", features = ["derive"] }
serde_yaml = "0.9"
voronoi = "0.1"

[package]
name = "lexion"
version = "0.1.0"
edition = "2021"
publish = false

[dependencies]
regex = "1"
bimap = "0.6"
petgraph = "0.6"
itertools = "*"
prettytable-rs = "0.10"
serde = { version = "1", features = ["derive"] }
serde_json = "1"
thiserror = "1"
miette = "7"

[package]
name = "goal_hdc"
version = "0.1.0"
edition = "2021"
publish = false

[dependencies]
rand = "0.9"
ndarray = "0.16"
ndarray-npy = "0.9"
polars = { version = "*", default-features = false, features = ["parquet", "rows", "fmt"] }
serde = { version = "1", features = ["derive"] }
serde_json = "1"
anyhow = "1"
clap = { version = "4", features = ["derive"] }

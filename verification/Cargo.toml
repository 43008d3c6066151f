[package]
name = "arroyo-state"
version = "0.1.0"
edition = "2021"
publish = false

[dependencies]
anyhow = "1"
arrow-array = "*"
arrow-schema = "*"
async-trait = "0.1"
bincode = "2"
bytes = "1"
futures = "0.3"
parquet = { version = "*", default-features = false, features = ["arrow", "zstd"] }
prost = "0.13"
tokio = { version = "1", features = ["fs", "macros", "rt-multi-thread", "sync"] }
tracing = "0.1"

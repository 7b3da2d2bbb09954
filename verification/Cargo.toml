[package]
name = "tracker"
version = "0.1.0"
edition = "2021"
publish = false

[dependencies]
dashmap = "*"
ahash = "*"
simple_moving_average = "*"
tokio = { version = "*", features = ["rt-multi-thread", "macros", "time", "sync"] }
moka = { version = "*", features = ["future"] }
leaky-bucket = "*"
backon = "*"
batch-aint-one = "*"
arc-swap = "*"
thiserror = "*"
anyhow = "*"

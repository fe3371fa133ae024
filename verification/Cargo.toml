[package]
name = "candle-rlcd"
version = "0.1.0"
edition = "2021"
publish = false

[dependencies]
anyhow = "1"
axum = "0.8"
candle-core = "*"
candle-nn = "*"
clap = { version = "4", features = ["derive", "env"] }
crossbeam-channel = "0.5"
rayon = "1"
serde = { version = "1", features = ["derive"] }
serde_json = { version = "1", features = ["preserve_order"] }
tokenizers = { version = "*", default-features = false, features = ["fancy-regex"] }
tokio = { version = "1", features = ["rt-multi-thread", "net", "time", "signal", "sync", "macros", "io-util"] }
ureq = "2"

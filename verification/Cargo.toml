[package]
name = "kvs"
version = "0.1.0"
edition = "2021"
publish = false

[dependencies]
bytes = "1"
serde = { version = "1", features = ["derive"] }
serde_json = "1"
sled = "0.34"
clap = "4"
crossbeam-channel = "0.5"
rayon = "1"
log = "0.4"
slog = "2"
slog-scope = "4"
slog-term = "2"
slog-stdlog = "4"

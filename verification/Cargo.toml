[package]
name = "log_reader"
version = "0.1.0"
edition = "2021"
publish = false

[dependencies]
serde_json = "1"
clap = "2"
log = "0.4"
env_logger = "0.10"
tokio = { version = "1", features = ["fs", "io-util", "rt-multi-thread", "macros"] }

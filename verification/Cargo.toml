[package]
name = "parallel_execution"
version = "0.1.0"
edition = "2021"
publish = false

[dependencies]
dashmap = "5"
clap = { version = "4", features = ["derive"] }
serde_json = "1"

[package]
name = "issue_sweep"
version = "0.1.0"
edition = "2021"
publish = false

[dependencies]
regex = "=1.13.1"
octocrab = "=0.40.0"
tokio = { version = "=1.53.2", features = ["rt-multi-thread", "macros", "fs", "io-util"] }
serde = { version = "=1.0.229", features = ["derive"] }
serde_json = "=1.0.151"
async-recursion = "=1.2.0"

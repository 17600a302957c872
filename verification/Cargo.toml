[package]
name = "swarm_engine"
version = "0.1.0"
edition = "2021"
publish = false

[dependencies]
tokio = { version = "*", features = ["rt", "rt-multi-thread", "sync", "fs", "io-util", "macros", "time"] }
chrono = "*"
async-trait = "*"

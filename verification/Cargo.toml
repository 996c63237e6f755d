[package]
name = "slow_align"
version = "0.1.0"
edition = "2021"
publish = false

[dependencies]
clap = { version = "3", features = ["derive"] }
crossbeam = "0.8"

[package]
name = "cargo-grime-cremator"
version = "0.1.0"
edition = "2021"
publish = false

[dependencies]
anyhow = "1"
cargo_metadata = "0.18"
clap = { version = "4", features = ["derive"] }
humantime = "2"
toml = "0.8"
walkdir = "2"

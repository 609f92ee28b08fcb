[package]
name = "cargo_prepare"
version = "0.1.0"
edition = "2021"
publish = false

[dependencies]
anyhow = "*"
cargo_metadata = "*"
structopt = "*"
tempfile = "*"

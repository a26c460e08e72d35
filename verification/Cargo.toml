[package]
name = "cargo-featurex"
version = "0.1.0"
edition = "2021"
publish = false

[dependencies]
bitarr = "*"
bytemuck = "1"
lasso = "0.7"
itertools = "0.10"
error-stack = "0.3"
thiserror = "1"
cargo_metadata = "0.15"
clap = { version = "4", features = ["derive"] }
serde = { version = "1", features = ["derive"] }
serde_json = "1"
termcolor = "1"

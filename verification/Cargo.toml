[package]
name = "cargo_license"
version = "0.1.0"
edition = "2021"
publish = false

[dependencies]
spdx = "*"
semver = { version = "1", features = ["serde"] }
cargo_metadata = "0.18"
anyhow = "1"
serde = { version = "1", features = ["derive"] }
serde_derive = "1"
serde_json = "1"
csv = "1"
clap = { version = "4", features = ["derive"] }
anstyle = "1"
itertools = "*"

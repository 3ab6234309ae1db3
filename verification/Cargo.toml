[package]
name = "anza_xtask"
version = "0.2.3"
edition = "2021"
publish = false

[dependencies]
anyhow = "1"
cargo_metadata = "*"
clap = { version = "4", features = ["derive"] }
ignore = "0.4"
log = "0.4"
semver = "1"
toml_edit = "0.23"

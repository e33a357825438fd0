[package]
name = "crates_scanner"
version = "0.1.0"
edition = "2021"
publish = false

[dependencies]
anyhow = "1"
cargo_metadata = "0.15"
flate2 = "1"
once_cell = "1"
proc-macro2 = "1"
rayon = "1"
regex = "1"
semver = "1"
serde_json = "1"
syn = { version = "2", features = ["full", "visit"] }
tar = "0.4"
toml = "0.7"
walkdir = "2"

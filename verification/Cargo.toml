[package]
name = "auto_bundle"
version = "0.1.0"
edition = "2021"
publish = false

[dependencies]
anyhow = "1"
cargo_toml = "*"
itertools = "0.10"
proc-macro2 = { version = "1", features = ["span-locations"] }
quote = "1"
structopt = "0.3"
syn = { version = "1", features = ["full", "visit", "extra-traits"] }

[package]
name = "scarb_resolver"
version = "0.1.0"
edition = "2021"
publish = false

[dependencies]
anyhow = "1"
itertools = "*"
pubgrub = "*"
semver = "1"
tokio = { version = "1", features = ["rt-multi-thread", "sync", "macros", "time"] }
version-ranges = "*"

[package]
name = "conserve_core"
version = "0.5.0"
edition = "2021"
publish = false

[dependencies]
blake2 = "*"
chrono = "*"
globset = "*"
semver = "*"

[package]
name = "fileheads"
version = "0.1.0"
edition = "2021"
publish = false

[dependencies]
futures = "0.1"
futures-cpupool = "0.1"

[dev-dependencies]
serde_urlencoded = "0.7"

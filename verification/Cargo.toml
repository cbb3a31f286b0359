[package]
name = "kvs"
version = "0.1.0"
edition = "2021"
publish = false

[dependencies]
clap = { version = "*", features = ["derive"] }
crossbeam = "*"
crossbeam-utils = "*"
glob = "*"
rayon = "*"
sled = "*"
tracing = "*"
tracing-subscriber = "*"

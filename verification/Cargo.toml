[package]
name = "copyhash"
version = "0.1.0"
edition = "2021"
publish = false

[dependencies]
blake3 = "*"
clap = { version = "*", features = ["derive"] }
crossbeam = "*"
glob = "*"
rayon = "*"
stopwatch = "*"

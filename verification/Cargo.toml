[package]
name = "webrank"
version = "0.1.0"
edition = "2021"
publish = false

[dependencies]
crossbeam = "0.8"
indicatif = "0.17"
rand = "0.8"
regex = "1"
reqwest = "0.11"
simple-pagerank = "*"
tokio = { version = "1", features = ["full"] }

[package]
name = "idvd"
version = "0.1.0"
edition = "2021"
publish = false

[dependencies]
lru = "*"
rand = "*"
rand_chacha = "*"
chrono = "*"
tokio = { version = "*", features = ["fs", "io-util", "rt", "rt-multi-thread", "macros"] }

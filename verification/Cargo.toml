[package]
name = "akd"
version = "0.1.0"
edition = "2021"
publish = false

[dependencies]
winter-crypto = "*"
winter-math = "*"
winter-utils = "*"
itertools = "*"
rand = "*"
tokio = { version = "*", features = ["rt", "rt-multi-thread", "sync", "time", "macros"] }
futures = "*"
log = "*"
once_cell = "*"
serde = { version = "*", features = ["derive"] }

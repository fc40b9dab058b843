[package]
name = "stupid_fish"
version = "0.1.0"
edition = "2021"
publish = false

[dependencies]
sj = { version = "=2.0.4", features = ["std"] }
libc = "=0.2.191"
fake-log = "=0.1.0"
tokio = { version = "=1.54.1", features = ["rt", "rt-multi-thread", "net", "io-util", "sync", "time"] }

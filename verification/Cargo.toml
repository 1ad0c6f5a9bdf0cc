[package]
name = "nfs_mirror"
version = "0.1.0"
edition = "2021"
publish = false

[dependencies]
intaglio = "=1.15.1"
zerofs_nfsserve = "=0.19.1"
tokio = { version = "=1.54.1", features = ["fs", "io-util", "sync", "rt-multi-thread", "macros", "net"] }
tokio-util = "=0.7.20"
async-trait = "=0.1.92"
clap = { version = "=4.6.7", features = ["derive"] }
serde = { version = "=1.0.229", features = ["derive"] }
toml = "=1.1.8"
tracing = "=0.1.44"
tracing-subscriber = "=0.3.23"
libc = "=0.2.191"

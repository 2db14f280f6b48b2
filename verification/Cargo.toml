[package]
name = "ubt_exex"
version = "0.1.0"
edition = "2021"
publish = false

[dependencies]
alloy-primitives = "*"
async-trait = "0.1"
clap = { version = "4", features = ["derive"] }
eyre = "0.6"
hex = "0.4"
jsonrpsee = { version = "*", features = ["server"] }
nomt = "*"
redb = "*"
serde = { version = "1", features = ["derive"] }
tokio = { version = "1", features = ["rt", "rt-multi-thread", "macros", "net", "sync", "time"] }
tracing = "0.1"

[package]
name = "kitsune2_gossip"
version = "0.1.0"
edition = "2021"
publish = false

[dependencies]
bytes = "*"
futures = "*"
kitsune2_api = "*"
kitsune2_dht = "*"
prost = "*"
prost-build = "*"
schemars = "*"
serde = { version = "*", features = ["derive"] }
tokio = { version = "*", features = ["rt", "sync", "time", "macros"] }
tracing = "*"

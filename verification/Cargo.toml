[package]
name = "ember_net"
version = "0.1.0"
edition = "2021"
publish = false

[dependencies]
anyhow = "1"
blake3 = "1"
byteorder = "1"
chrono = "0.4"
digest = "0.10"
flate2 = "1"
hex = "0.4"
md4 = "0.10"
md-5 = "0.10"
rand = "0.8"
serde = { version = "1", features = ["derive"] }
snow = "0.9"
tokio = { version = "1", features = ["net", "io-util", "sync", "time", "rt", "macros"] }
tracing = "0.1"
zeroize = "1"

[package]
name = "r_delta"
version = "0.1.3"
edition = "2021"
publish = false

[dependencies]
anyhow = "1"
bincode = "2"
blake3 = "1"
chacha20poly1305 = "0.10"
clap = { version = "4", features = ["derive"] }
console = "0.15"
dirs = "5"
futures = "0.3"
hex = "0.4"
ignore = "0.4"
indicatif = "0.17"
pathdiff = "0.2"
quinn = "0.11"
rand = "0.8"
serde = { version = "1", features = ["derive"] }
sha2 = "0.10"
tokio = { version = "1", features = ["rt-multi-thread", "macros", "time", "io-util", "fs"] }
tracing = "0.1"
tracing-subscriber = { version = "0.3", features = ["env-filter"] }
zeroize = "1"
zstd = "0.13"

[package]
name = "beyond_kv"
version = "0.1.0"
edition = "2021"
publish = false

[dependencies]
anyhow = "=1.0.104"
async-trait = "=0.1.92"
beyond-resp = "=0.1.1"
blake3 = "=1.8.7"
bytes = "=1.12.1"
clap = { version = "=4.6.7", features = ["derive"] }
crc-fast = "=1.10.0"
futures-channel = "=0.3.34"
futures-util = "=0.3.34"
hdrhistogram = "=7.6.0"
humantime = "=2.4.0"
monoio = { version = "=0.2.4", features = ["mkdirat", "renameat", "unlinkat"] }
rand = "=0.8.8"
rand_distr = "=0.4.3"
redis = { version = "=0.25.5", features = ["tokio-comp"] }
rustc-hash = "=2.1.3"
serde = { version = "=1.0.229", features = ["derive"] }
serde_json = "=1.0.154"
tabled = "=0.15.0"
thiserror = "=1.0.69"
tokio = { version = "=1.54.1", features = ["full"] }
tracing = "=0.1.44"
tracing-subscriber = { version = "=0.3.23", features = ["env-filter"] }

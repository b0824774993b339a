[package]
name = "pmtiles"
version = "0.1.0"
edition = "2021"
publish = false

[dependencies]
fast_hilbert = "*"
flate2 = "*"
twox-hash = "*"
roaring = "*"
bytes = "*"
tokio = { version = "*", features = ["full"] }
futures-util = "*"
async-stream = "*"
reqwest = { version = "*", default-features = false, features = ["rustls-tls"] }
fmmap = { version = "*", features = ["tokio-async"] }
moka = { version = "*", features = ["future"] }
clap = { version = "*", features = ["derive"] }
env_logger = "*"
log = "*"
serde_json = "*"
tilejson = "*"

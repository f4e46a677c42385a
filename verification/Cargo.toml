[package]
name = "triviumdb"
version = "0.1.0"
edition = "2021"
publish = false

[dependencies]
serde_json = "=1.0.154"
chrono = "=0.4.45"
serde = { version = "1", features = ["derive"] }
rayon = "1"
thiserror = "2"
tracing = "0.1"
tracing-subscriber = "0.3"
fs2 = "0.4"
bincode = "1"
half = "2"
libloading = "0.8"
napi = { version = "2", features = ["serde-json"] }
napi-derive = "2"
pyo3 = { version = "0.29", features = ["extension-module", "abi3-py38"] }

[package]
name = "nebula"
version = "0.1.0"
edition = "2021"
publish = false

[dependencies]
ring = "0.17"
sha2 = "0.10"
wasmparser = "0.236"
dashmap = "6"
tracing = "0.1"
tracing-subscriber = { version = "0.3", features = ["env-filter"] }
serde = { version = "1", features = ["derive"] }
serde_json = "1"
tokio = { version = "1", features = ["full"] }
axum = "0.8"
tonic = { version = "0.14", features = ["tls-ring"] }
tonic-prost = "0.14"
prost = "0.14"
wasmtime = { version = "36", default-features = false, features = ["cranelift", "runtime", "pooling-allocator", "std", "wat", "threads"] }
boa_engine = "0.20"

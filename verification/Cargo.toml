[package]
name = "monitoring_platform"
version = "0.1.0"
edition = "2021"
publish = false

[dependencies]
anyhow = "1"
axum = { version = "0.8", default-features = false, features = ["http1", "json", "tokio", "query"] }
base64 = "0.22"
blake3 = { version = "1", default-features = false, features = ["std", "pure"] }
clap = { version = "4", features = ["derive", "env"] }
flate2 = "1"
http-body-util = "0.1"
hyper = { version = "1", features = ["client", "http1"] }
hyper-util = { version = "0.1", features = ["tokio"] }
jiff = "0.2"
libc = "0.2"
opentelemetry-proto = { version = "*", default-features = false, features = ["gen-tonic-messages", "logs"] }
prost = "*"
rusqlite = { version = "*", features = ["bundled"] }
sd-notify = "*"
serde = { version = "1", features = ["derive"] }
serde_json = "1"
tokio = { version = "1", features = ["full"] }
tracing = "0.1"
tracing-subscriber = { version = "0.3", features = ["env-filter"] }

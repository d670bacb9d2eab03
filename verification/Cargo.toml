[package]
name = "supervictor"
version = "0.1.0"
edition = "2021"
publish = false

[dependencies]
serde = { version = "1", features = ["derive"] }
serde_json = "1"
axum = "0.8"
tokio = { version = "1", features = ["rt-multi-thread", "macros", "sync", "time"] }
tower-http = { version = "0.6", features = ["compression-gzip", "trace"] }
maud = { version = "0.27", features = ["axum"] }
futures-core = "0.3"
tracing = "0.1"
ureq = "3"
heapless = { version = "0.8", features = ["serde"] }
aws-config = { version = "1", default-features = false }
aws-sdk-dynamodb = { version = "1", default-features = false }

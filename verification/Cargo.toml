[package]
name = "apollo_router"
version = "0.1.0"
edition = "2021"
publish = false

[dependencies]
bytes = "=1.12.1"
futures = "=0.3.34"
http = "=0.2.12"
hyper = { version = "=0.14.32", features = ["server", "http1", "http2", "tcp"] }
once_cell = "=1.21.4"
opentelemetry = "=0.17.0"
opentelemetry-prometheus = "=0.10.0"
prometheus = "=0.13.4"
schemars = "=0.8.22"
serde = { version = "=1.0.229", features = ["derive"] }
serde_json = "=1.0.154"
serde_json_bytes = { version = "=0.2.6", features = ["preserve_order"] }
tokio = { version = "=1.54.1", features = ["macros", "net", "rt-multi-thread", "sync"] }
tower = { version = "=0.4.13", features = ["util"] }
tower-http = { version = "=0.2.5", features = ["trace"] }
tower-service = "=0.3.3"
tracing = "=0.1.44"
tracing-opentelemetry = "=0.17.4"
urlencoding = "=2.1.3"
warp = { version = "=0.3.7", default-features = false }

[package]
name = "template_engine"
version = "0.1.0"
edition = "2021"
publish = false

[dependencies]
anyhow = "1"
axum = "*"
axum-macros = "*"
bytes = "1"
deadpool-postgres = "*"
fnv = "1"
futures = "0.3"
html5gum = "*"
rayon = "1"
serde_json = "1"
tokio = { version = "1", features = ["full"] }
tokio-postgres = { version = "*", features = ["with-serde_json-1"] }
tokio-stream = "*"
tower-http = { version = "*", features = ["fs", "trace"] }
tracing-subscriber = "*"

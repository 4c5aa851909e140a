[package]
name = "ockam_kit"
version = "0.1.0"
edition = "2021"
publish = false

[dependencies]
url = "=2.5.8"
serde = { version = "1", features = ["derive"] }
serde_json = "=1.0.154"
serde_yaml = "*"
opentelemetry = "=0.27.1"
tracing = "*"
tracing-subscriber = "*"
tracing-opentelemetry = "=0.28.0"
tempfile = "3"
miette = "*"
reqwest = { version = "*", default-features = false }
tokio = { version = "1", features = ["fs"] }
clap = { version = "4", features = ["derive"] }

[dev-dependencies]
regex = "=1.13.1"

[package]
name = "datadog_apm"
version = "0.2.1"
edition = "2021"
publish = false

[dependencies]
rmp = "=0.8.15"
hyper = "=0.13.10"
tokio = { version = "=0.2.25", features = ["full"] }
log = "=0.4.34"

[dev-dependencies]
rmp-serde = "1.3"
serde = "1.0"

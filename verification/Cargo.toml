[package]
name = "transmission_notifier"
version = "0.1.0"
edition = "2021"
publish = false

[dependencies]
tokio = { version = "*", features = ["rt-multi-thread", "macros", "time"] }
transmission-rpc = "*"
ntfy = "*"
log = "*"
env_logger = "*"

[dev-dependencies]
serde_cbor = "*"

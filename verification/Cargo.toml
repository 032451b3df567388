[package]
name = "skyhook-core"
version = "0.1.0"
edition = "2021"
publish = false

[dependencies]
chrono = "=0.4.45"
futures-util = "=0.3.34"
schemars = { version = "=1.2.3", features = ["preserve_order"] }
serde = { version = "=1.0.229", features = ["derive"] }
serde_json = { version = "=1.0.154", features = ["preserve_order"] }
thiserror = "=2.0.21"
tokio = { version = "=1.54.1", features = ["fs", "macros", "rt-multi-thread", "sync", "time"] }
tokio-util = "=0.7.20"

[dev-dependencies]
tempfile = "=3.27.0"

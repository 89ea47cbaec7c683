[package]
name = "partition_sink"
version = "0.1.0"
edition = "2021"
publish = false

[dependencies]
futures = "*"
metrics = "*"
serde_json = "*"
tokio = { version = "*", features = ["rt", "sync", "time", "macros"] }
tower = { version = "*", features = ["util"] }

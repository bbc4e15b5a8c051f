[package]
name = "futures-length-delimited-frame"
version = "0.2.0"
edition = "2021"
publish = false

[dependencies]
either = "1"
futures-core = "0.3"
futures-io = "0.3"
futures-sink = "0.3"
futures-util = { version = "0.3", features = ["io", "sink"] }
pin-project-lite = "0.2"
tokio = { version = "1", default-features = false }

[dev-dependencies]
futures-executor = "0.3"

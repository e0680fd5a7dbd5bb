[package]
name = "agent24_os_proto"
version = "0.1.0"
edition = "2021"
publish = false

[dependencies]
axum = "0.8"
close_fds = "0.3"
command-fds = { version = "0.3", features = ["tokio"] }
http-body-util = "0.1"
hyper = { version = "1", features = ["client", "http1"] }
hyper-util = { version = "0.1", features = ["tokio"] }
rustix = { version = "1", features = ["fs", "net", "process"] }
serde = { version = "1", features = ["derive"] }
serde_json = "1"
serde_yaml = "0.9"
sha2 = "0.10"
tokio = { version = "1", features = ["full"] }
tracing = "0.1"

[package]
name = "systems_programming"
version = "0.1.0"
edition = "2021"
publish = false

[dependencies]
byteorder = "1"
bytes = "1"
futures = "0.3"
serde = { version = "1", features = ["derive"] }
serde_json = "1"
tokio = { version = "1", features = ["rt-multi-thread", "net", "macros", "io-util"] }
tokio-util = { version = "0.7", features = ["codec"] }

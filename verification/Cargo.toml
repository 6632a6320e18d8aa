[package]
name = "closure_graph"
version = "0.1.0"
edition = "2021"
publish = false

[dependencies]
async-stream = "*"
futures-util = "*"
tokio = { version = "*", features = ["sync", "rt"] }
tokio-stream = "*"

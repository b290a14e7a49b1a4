[package]
name = "uzumibi"
version = "0.1.0"
edition = "2021"
publish = false

[dependencies]
anyhow = "=1.0.104"
clap = { version = "=4.6.7", features = ["derive"] }
http-body-util = "=0.1.5"
hyper = { version = "=1.12.0", features = ["http1", "server"] }
hyper-util = { version = "=0.1.21", features = ["tokio", "server-graceful"] }
include_dir = "=0.7.4"
mrubyedge = "=2.1.2"
mrubyedge-serde-json = "=0.3.0"
spin-sdk = "=5.2.0"
tokio = { version = "=1.54.1", features = ["macros", "net", "rt-multi-thread", "signal", "time"] }

[package]
name = "rift"
version = "0.1.0"
edition = "2021"
publish = false

[dependencies]
regex = "1"
hyper = { version = "1", features = ["http1", "http2", "server", "client"] }
hyper-util = { version = "0.1", features = ["client-legacy", "http1", "http2", "server", "server-auto", "tokio"] }
http-body-util = "0.1"
bytes = "1"
tokio = { version = "1", features = ["rt-multi-thread", "net", "macros"] }
clap = { version = "4", features = ["derive"] }

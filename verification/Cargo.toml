[package]
name = "delivered"
version = "0.1.0"
edition = "2021"
publish = false

[dependencies]
axum = "0.8"
dotenvy = "0.15"
percent-encoding = "2"
tokio = { version = "1", features = ["rt-multi-thread", "macros", "fs", "io-util", "net"] }
tower-http = { version = "0.6", features = ["fs", "compression-gzip", "compression-deflate", "compression-br"] }

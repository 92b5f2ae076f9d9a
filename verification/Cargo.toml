[package]
name = "h1http"
version = "0.1.0"
edition = "2021"
publish = false

[dependencies]
flate2 = "1"
bytes = "1"
tokio = { version = "1", features = ["rt-multi-thread", "net", "io-util", "macros"] }

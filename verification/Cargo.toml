[package]
name = "ferrum"
version = "0.1.0"
edition = "2021"
publish = false

[dependencies]
flate2 = "1"
md-5 = "0.10"
rustyline = "14"
tokio = { version = "1", features = ["full"] }

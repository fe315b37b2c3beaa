[package]
name = "temperature_guardian"
version = "0.1.0"
edition = "2021"
publish = false

[dependencies]
dirs = "*"
reqwest = { version = "*", default-features = false }
tokio = { version = "*", features = ["rt-multi-thread", "macros", "time", "sync", "fs"] }

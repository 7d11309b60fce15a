[package]
name = "mediarelay"
version = "0.1.0"
edition = "2021"
publish = false

[dependencies]
tokio = { version = "1", features = ["rt-multi-thread", "macros", "time", "signal", "io-util", "io-std"] }
reqwest = { version = "*", default-features = false }
tokio-tungstenite = "*"
futures-util = "0.3"

[package]
name = "gossamer"
version = "0.1.0"
edition = "2021"
publish = false

[dependencies]
queues = "1"
take_mut = "0.2"
futures = "0.3"
tokio = { version = "1", features = ["rt-multi-thread", "macros", "net", "io-util", "sync"] }
async-trait = "0.1"
serde = { version = "1", features = ["derive"] }

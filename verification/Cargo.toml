[package]
name = "lumen_core"
version = "0.1.0"
edition = "2021"
publish = false

[dependencies]
crc32fast = "1"
anyhow = "1"
tokio = { version = "1", features = ["macros", "rt-multi-thread"] }
tonic = "*"
tracing = "0.1"
tracing-subscriber = { version = "0.3", features = ["env-filter"] }

[package]
name = "octet_zone"
version = "0.1.0"
edition = "2021"
publish = false

[dependencies]
hickory-server = "0.24"
tokio = { version = "1", features = ["net", "rt-multi-thread", "macros"] }
clap = { version = "4", features = ["derive", "env"] }
anyhow = "1"
async-trait = "0.1"
thiserror = "1"
tracing = "0.1"
tracing-subscriber = "0.3"

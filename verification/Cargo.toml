[package]
name = "shadps4_launcher"
version = "0.1.0"
edition = "2021"
publish = false

[dependencies]
time = "0.3"
log = "0.4"
tokio = { version = "1", features = ["process", "io-util", "sync", "rt", "macros"] }
serde = { version = "1", features = ["derive"] }
serde_json = "1"
anyhow = "1"
thiserror = "1"
dotenvy = "0.15"
zip = { version = "2", default-features = false, features = ["deflate"] }

[dev-dependencies]
regex = "1"

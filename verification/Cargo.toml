[package]
name = "btsniffer"
version = "0.1.0"
edition = "2021"
publish = false

[dependencies]
sha1 = "0.6"
rand = "0.7"
lru-cache = "0.1"
async-std = "1"
structopt = "0.3"
env_logger = "0.9"
log = "0.4"
serde = { version = "1", features = ["derive"] }
serde_json = "1"
thiserror = "1"
anyhow = "1"

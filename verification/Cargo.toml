[package]
name = "mixnet_core"
version = "0.1.0"
edition = "2021"
publish = false

[dependencies]
base64 = "=0.13.1"
clap = "=4.6.7"
dotenv = "=0.15.0"
futures = "=0.3.34"
log = "=0.4.34"
pretty_env_logger = "=0.4.0"
serde = { version = "=1.0.229", features = ["derive"] }
serde_json = "1"
tokio = { version = "=1.53.2", features = ["rt-multi-thread", "net", "io-util", "time", "macros", "sync"] }

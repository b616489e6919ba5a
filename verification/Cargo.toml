[package]
name = "netsim"
version = "0.1.0"
edition = "2021"
publish = false

[dependencies]
ipnetwork = "0.20"
petgraph = "0.6"
serde = { version = "1", features = ["derive"] }
serde_json = "1"
uuid = { version = "1", features = ["v4"] }
actix-web = "4"
actix-cors = "0.7"
actix-rt = "2"
actix-ws = "0.3"
tokio = { version = "1", features = ["rt-multi-thread", "macros", "sync", "time"] }
parking_lot = "0.12"
env_logger = "0.11"
log = "0.4"

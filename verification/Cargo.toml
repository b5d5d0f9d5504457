[package]
name = "chat_relay"
version = "0.1.0"
edition = "2021"
publish = false

[dependencies]
rand = "0.8"
actix-web = "4"
actix-ws = "0.3"
actix-files = "0.6"
tokio = { version = "1", features = ["full"] }
futures-util = "0.3"
rusqlite = { version = "*", features = ["bundled"] }
serde = { version = "1", features = ["derive"] }
log = "0.4"
env_logger = "0.11"

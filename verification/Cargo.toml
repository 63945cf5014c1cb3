[package]
name = "bom_parser"
version = "0.1.0"
edition = "2021"
publish = false

[dependencies]
csv = "1"
calamine = "0.24"
uuid = { version = "1", features = ["v4"] }
chrono = { version = "0.4", features = ["serde"] }
serde = { version = "1", features = ["derive"] }
serde_json = "1"
thiserror = "1"
actix-web = { version = "4", default-features = false, features = ["macros"] }
actix-multipart = "0.6"
futures = "0.3"
tokio = { version = "1", features = ["rt", "macros"] }
parking_lot = "0.12"
dotenvy = "0.15"
env_logger = "0.11"
log = "0.4"

[package]
name = "scout"
version = "0.1.0"
edition = "2021"
publish = false

[dependencies]
actix-cors = "0.6"
actix-files = "0.6"
actix-web = "4"
env_logger = "0.10"
liblinear = "1"
sbert = "*"
serde = { version = "1", features = ["derive"] }

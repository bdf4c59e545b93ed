[package]
name = "nearest_neighbor"
version = "0.1.0"
edition = "2021"
publish = false

[dependencies]
rand = "0.8"
serde = { version = "1", features = ["derive"] }
serde_json = "1"
clap = { version = "3", features = ["derive"] }
mongodb = "2"
bson = "2"
futures = "0.3"
tokio = { version = "1", features = ["macros", "rt-multi-thread"] }
loadenv = "*"

[package]
name = "metagame_stats"
version = "0.1.0"
edition = "2021"
publish = false

[dependencies]
bson = "2"
dotenv = "0.15"
futures = "0.3"
mongodb = "3"
serde = { version = "1", features = ["derive"] }
serde_json = "1"
tokio = { version = "1", features = ["macros", "rt-multi-thread"] }

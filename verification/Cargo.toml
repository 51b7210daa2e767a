[package]
name = "wordle_game"
version = "0.1.0"
edition = "2021"
publish = false

[dependencies]
actix-web = "4"
rand = "0.8"
rusqlite = "0.29"
serde = { version = "1", features = ["derive"] }
serde_json = "1"
uuid = { version = "1", features = ["v4"] }

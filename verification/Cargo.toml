[package]
name = "rift_rumble_bot"
version = "0.1.0"
edition = "2021"
publish = false

[dependencies]
rand = "0.8"
serde_json = "1"
serenity = "0.10"
tokio = { version = "1", features = ["macros", "rt-multi-thread", "sync"] }

[package]
name = "twitch_chat_logger"
version = "0.1.0"
edition = "2021"
publish = false

[dependencies]
chrono = "=0.4.45"
rand = "=0.7.3"
serde_json = "=1.0.154"
uuid = "=0.8.2"
serde = { version = "=1.0.229", features = ["derive"] }
irc = "=0.13.6"
twitchchat = "=0.10.3"
tokio = { version = "=0.2.25", features = ["full"] }
reqwest = { version = "=0.10.10", features = ["json"] }
futures = "=0.3.34"
lazy_static = "=1.5.1"
diesel = { version = "=1.4.8", features = ["sqlite"] }
dotenv = "=0.15.0"

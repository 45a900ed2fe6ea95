[package]
name = "dice_engine"
version = "0.1.0"
edition = "2021"
publish = false

[dependencies]
rand = "=0.8.8"
irc = "=1.1.0"
tokio = { version = "1", features = ["rt", "rt-multi-thread", "macros"] }
futures-util = "0.3"

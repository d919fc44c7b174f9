[package]
name = "theta"
version = "0.1.0"
edition = "2021"
publish = false

[dependencies]
bevy = { version = "0.16", default-features = false, features = ["std", "bevy_log"] }
parking_lot = "0.12"
rand = "0.9"
thiserror = "2"

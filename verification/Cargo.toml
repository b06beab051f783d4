[package]
name = "copper"
version = "0.1.0"
edition = "2021"
publish = false

[dependencies]
bevy = { version = "0.8", default-features = false, features = ["render", "bevy_asset"] }
dashmap = "5"
lazy_static = "1"
smallvec = "1"

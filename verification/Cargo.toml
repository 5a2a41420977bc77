[package]
name = "bump"
version = "0.1.0"
edition = "2021"
publish = false

[dependencies]
bevy = { version = "0.15", default-features = false }
enumset = "1"
replace_with = "0.1"

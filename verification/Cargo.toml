[package]
name = "asyncband"
version = "0.7.0"
edition = "2021"
publish = false

[dependencies]
hashbrown = { version = "0.15", default-features = false }

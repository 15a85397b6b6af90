[package]
name = "rustygrad"
version = "0.1.0"
edition = "2021"
publish = false

[dependencies]
impl_ops = "0.1"
rand = "0.8"
uuid = { version = "1", features = ["v4"] }

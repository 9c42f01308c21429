[package]
name = "radius_server"
version = "0.1.0"
edition = "2021"
publish = false

[dependencies]
md5 = "*"
tokio = { version = "*", features = ["net", "rt", "rt-multi-thread", "macros"] }

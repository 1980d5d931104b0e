[package]
name = "mdit"
version = "0.1.0"
edition = "2021"
publish = false

[dependencies]
comrak = "*"
syntect = "*"
uuid = { version = "*", features = ["v4"] }

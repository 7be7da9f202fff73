[package]
name = "quipu"
version = "0.1.0"
edition = "2021"
publish = false

[dependencies]
oxttl = "*"
oxrdf = "*"
ring = "*"
hex = "*"
bigdecimal = "*"
serde = { version = "1", features = ["derive"] }
serde_json = "1"

[package]
name = "kv"
version = "0.1.0"
edition = "2021"
publish = false

[dependencies]
structopt = "0.3"

[dev-dependencies]
serde_json = "1"

[package]
name = "getup"
version = "0.1.0"
edition = "2021"
publish = false

[dependencies]
chrono = "0.4"
structopt = "0.3"
home = "0.5"
anyhow = "1"

[dev-dependencies]
serde_json = "1"

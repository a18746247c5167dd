[package]
name = "kvs"
version = "0.1.0"
edition = "2021"
publish = false

[dependencies]
serde = { version = "1", features = ["derive"] }
serde_json = "1"
sled = "0.34"
failure = "0.1"
structopt = "0.3"
clap = { version = "4", features = ["cargo"] }
env_logger = "0.10"
log = "0.4"
ron = "0.8"
bson = "2"

[package]
name = "kvs"
version = "0.1.0"
edition = "2021"
publish = false

[dependencies]
clap = "2.33"
serde_json = "1.0"
sled = "0.34"

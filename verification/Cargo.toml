[package]
name = "kvs"
version = "0.1.0"
edition = "2021"
publish = false

[dependencies]
clap = "=4.6.7"
rmp-serde = "=1.3.1"

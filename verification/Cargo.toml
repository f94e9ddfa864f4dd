[package]
name = "neato_driver"
version = "0.1.0"
edition = "2021"
publish = false

[dependencies]
serialport = { version = "*", default-features = false }
clap = "*"
env_logger = "*"

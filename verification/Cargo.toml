[package]
name = "docuum"
version = "0.1.0"
edition = "2021"
publish = false

[dependencies]
byte-unit = "4"
regex = "1"
atty = "0.2"
chrono = "0.4"
clap = "2"
colored = "2"
env_logger = "0.8"
log = "0.4"

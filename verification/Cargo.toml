[package]
name = "pickup"
version = "0.1.0"
edition = "2021"
publish = false

[dependencies]
actix-web = "*"
clap = "*"
env_logger = "*"
log = "*"

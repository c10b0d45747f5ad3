[package]
name = "irc_server"
version = "0.1.0"
edition = "2021"
publish = false

[dependencies]
base64 = "=0.22.1"
jsonwebtoken = "=9.3.1"
ring = "=0.17.14"
rand = "=0.10.3"
log = "=0.4.34"
env_logger = "=0.11.11"
image = { version = "=0.25.10", default-features = false, features = ["png"] }

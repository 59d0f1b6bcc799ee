[package]
name = "ua_crawler"
version = "0.1.0"
edition = "2021"
publish = false

[dependencies]
log = "=0.4.34"
env_logger = "=0.11.11"
opcua = { version = "=0.12.0", default-features = false, features = ["client"] }

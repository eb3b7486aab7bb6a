[package]
name = "credential_relay"
version = "0.1.0"
edition = "2021"
publish = false

[dependencies]
twilight-http = "=0.2.10"
http = "=0.2.12"
actix-web = { version = "=3.3.3", default-features = false }
log = "=0.4.34"
env_logger = "=0.8.4"

[package]
name = "carddefs"
version = "0.1.0"
edition = "2021"
publish = false

[dependencies]
quick-xml = "=0.37.5"
lz4 = "=1.28.1"
log = "=0.4.34"
env_logger = "=0.11.11"

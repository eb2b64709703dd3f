[package]
name = "fs-server"
version = "0.1.0"
edition = "2021"
publish = false

[dependencies]
wasmer = "=6.1.0"
tonic = "=0.12.3"
prost = "=0.13.5"
tokio = { version = "=1.54.1", features = ["macros", "rt-multi-thread"] }
log = "=0.4.34"
env_logger = "=0.11.11"

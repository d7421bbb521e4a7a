[package]
name = "grad"
version = "0.1.0"
edition = "2021"
publish = false

[dependencies]
time = "0.1"
bytes = "0.4"
nom = "4"
serde = "1"
serde_derive = "1"
warp = "0.1"
tokio = "0.1"
tokio-io = "0.1"
clap = "2"
log = "0.4"
pretty_env_logger = "0.3"

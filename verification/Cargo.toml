[package]
name = "linkerd-tcp"
version = "0.1.0"
edition = "2021"
publish = false

[dependencies]
clap = "2"
futures = "0.1"
log = "0.3"
ordermap = "0.2"
pretty_env_logger = "0.1"
rand = "0.3"
tokio-core = "0.1"

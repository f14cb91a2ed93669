[package]
name = "distributed_owners"
version = "0.1.0"
edition = "2021"
publish = false

[dependencies]
itertools = "=0.15.0"
textwrap = "*"
anyhow = "*"
clap = { version = "*", features = ["derive"] }
clap-verbosity-flag = "*"
env_logger = "*"
log = "*"

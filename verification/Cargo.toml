[package]
name = "stwalk"
version = "0.1.0"
edition = "2021"
publish = false

[dependencies]
anyhow = "*"
dset = "*"
env_logger = "*"
glob = "*"
tokio = { version = "*", features = ["macros", "rt-multi-thread"] }

[package]
name = "swhids_subgrapher"
version = "0.1.0"
edition = "2021"
publish = false

[dependencies]
sha1 = "*"
anyhow = "*"
clap = { version = "*", features = ["derive"] }
env_logger = "*"
log = "*"
dsi-progress-logger = "*"

[package]
name = "snake"
version = "0.1.0"
edition = "2021"
publish = false

[dependencies]
rand = "=0.8.8"
bonsai-bt = { version = "=0.14.0", features = ["visualize"] }
crossterm = "=0.27.0"
anyhow = "=1.0.104"
env_logger = "=0.10.2"
log = "=0.4.35"

[package]
name = "copc_converter"
version = "0.1.0"
edition = "2021"
publish = false

[dependencies]
anyhow = "=1.0.104"
byteorder = "=1.5.0"
clap = { version = "=4.6.7", features = ["derive"] }
env_logger = "=0.11.11"
las = { version = "=0.9.11", features = ["laz-parallel"] }
laz = "=0.12.2"
log = "=0.4.35"
rayon = "=1.12.0"

[package]
name = "root-vortex"
version = "0.1.0"
edition = "2021"
publish = false

[dependencies]
flate2 = "=1.1.10"
xz2 = "=0.1.7"
lz4 = "=1.28.1"
oxyroot = "=0.1.25"
anyhow = "=1.0.104"
clap = { version = "=4.6.7", features = ["derive"] }
env_logger = "=0.11.11"
log = "=0.4.35"
pyo3 = "0.22"

[dev-dependencies]
tempfile = "=3.27.0"

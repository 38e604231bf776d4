[package]
name = "deejx"
version = "0.1.0"
edition = "2021"
publish = false

[dependencies]
anyhow = "1"
crossbeam-channel = "0.5"
libpulse-binding = "2"
log = "0.4"
notify = "*"
pretty_env_logger = "0.5"
pulsectl-rs = "*"
serde = { version = "1", features = ["derive"] }
serde_yml = "*"
serialport = { version = "*", default-features = false }
xdg = "*"

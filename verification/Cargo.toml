[package]
name = "ttwm"
version = "0.1.0"
edition = "2021"
publish = false

[dependencies]
slotmap = "=1.1.1"
x11rb = { version = "=0.13.2", features = ["randr"] }
serde = { version = "=1.0.229", features = ["derive"] }
serde_json = "=1.0.154"
toml = "=0.8.23"
dirs = "=5.0.1"
log = "=0.4.35"
env_logger = "=0.11.11"
anyhow = "=1.0.104"
clap = { version = "=4.6.7", features = ["derive"] }
shellexpand = "=3.1.2"
libc = "=0.2.191"
once_cell = "=1.21.4"
freetype-rs = "*"
image = { version = "=0.25.10", default-features = false, features = ["png"] }

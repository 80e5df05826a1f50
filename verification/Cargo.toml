[package]
name = "ompd"
version = "0.1.0"
edition = "2021"
publish = false

[dependencies]
anyhow = "*"
chrono = "*"
ctrlc = "*"
env_logger = "*"
glob = "*"
home = "*"
image = "0.24"
imageproc = "0.23"
log = "*"
rusttype = "0.9"
screenshots = "*"
serde = { version = "*", features = ["derive"] }
serde_json = "*"
symlink = "*"
which = "*"
zstd = "*"

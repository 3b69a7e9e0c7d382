[package]
name = "mosh-rs"
version = "0.1.0"
edition = "2021"
publish = false

[dependencies]
aead = "0.5"
aes = "0.8"
base64 = "0.22"
env_logger = "0.11"
flate2 = "1"
log = "0.4"
nix = { version = "0.29", features = ["poll", "term", "process", "signal", "fs", "ioctl", "env"] }
ocb3 = "0.1"
prost = { version = "0.13", default-features = false, features = ["std"] }
rand = "0.8"

[package]
name = "raven_init"
version = "0.1.0"
edition = "2021"
publish = false

[dependencies]
anyhow = "1"
env_logger = "0.11"
libc = "0.2"
log = "0.4"
nix = { version = "0.29", features = ["mount", "signal", "process", "fs", "reboot", "hostname", "poll", "user", "ioctl", "socket", "uio", "term"] }
serde = { version = "1", features = ["derive"] }
toml = "0.8"
toml_edit = "0.22"

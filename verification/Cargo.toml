[package]
name = "hybrid_mount"
version = "0.1.0"
edition = "2021"
publish = false

[dependencies]
flate2 = "=1.1.10"
serde = { version = "=1.0.229", features = ["derive"] }
serde_json = "=1.0.154"
log = "=0.4.35"
rustix = { version = "=1.1.6", features = ["fs", "mount", "process", "system"] }
procfs = "=0.17.0"
getrandom = "=0.3.4"
libc = "=0.2.191"
object = { version = "*", features = ["write"] }
regex-lite = "*"
walkdir = "2"
tempfile = "3"
extattr = "*"

[package]
name = "filegirl"
version = "0.1.0"
edition = "2021"
publish = false

[dependencies]
env_logger = "*"
fs_extra = "1"
log = "0.4"
md5 = "0.7"
notify = "*"
regex = "1"
serde = { version = "1", features = ["derive"] }
serde_yaml = "*"
walkdir = "2"

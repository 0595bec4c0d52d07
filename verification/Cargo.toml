[package]
name = "rustscan"
version = "0.1.0"
edition = "2021"
publish = false

[dependencies]
async-std = "1"
cidr-utils = "=0.5.11"
colorful = "=0.2.2"
dirs = "=3.0.2"
env_logger = "=0.8.4"
futures = "=0.3.34"
log = "=0.4.34"
rand = "=0.7.3"
rlimit = "=0.5.4"
serde = { version = "1", features = ["derive"] }
shell-words = "=1.1.1"
toml = "0.5"
trust-dns-resolver = { version = "=0.19.7", features = ["dns-over-rustls"] }

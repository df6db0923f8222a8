[package]
name = "mirage"
version = "0.1.0"
edition = "2021"
publish = false

[dependencies]
anyhow = "1"
arc-swap = "1"
base64 = "0.22"
blake3 = "1"
boringtun = "*"
fastrand = "2"
flate2 = "1"
ipnet = "2"
libc = "0.2"
md-5 = "0.10"
nix = { version = "0.29", features = ["socket", "net", "uio"] }
quinn = "0.11"
quinn-proto = "0.11"
rcgen = "0.13"
ring = "0.17"
rustls = "0.23"
rustls-webpki = "*"
serde = { version = "1", features = ["derive"] }
serde_json = "1"
sha2 = "0.10"
smoltcp = { version = "0.12", default-features = false, features = ["std", "medium-ip", "proto-ipv4", "proto-ipv6", "socket-tcp", "socket-udp", "async"] }
subtle = "2"
tokio = { version = "1", features = ["full"] }
tracing = "0.1"

[dev-dependencies]
hex = "0.4"

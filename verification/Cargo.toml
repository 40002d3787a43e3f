[package]
name = "ras"
version = "0.1.0"
edition = "2021"
publish = false

[dependencies]
aes = "0.8"
base64 = "0.13"
clap = { version = "4", features = ["derive"] }
get_if_addrs = "0.5"
hostname = "0.3"
log = "0.4"
mac_address = "1"
multicast-socket = "0.2"
pretty_env_logger = "0.5"
rsa = "0.9"
sha1 = "0.10"
symphonia = { version = "0.5", features = ["alac"] }
tokio = { version = "1", features = ["full"] }

[dev-dependencies]
rand = "0.8"

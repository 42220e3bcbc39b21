[package]
name = "nextppp"
version = "0.1.0"
edition = "2021"
publish = false

[dependencies]
aes = "0.8"
chacha20 = "0.9"
hkdf = "0.12"
sha2 = "0.10"
rand = "0.10"
ipnet = "2"
serde = { version = "1", features = ["derive"] }
json5 = "*"
clap = { version = "4", features = ["derive"] }
anyhow = "1"
thiserror = "2"
ctrlc = "3"
spdlog-rs = "*"
sysproxy = "*"

[dev-dependencies]
cfb-mode = "0.8"
ctr = "0.9"

[package]
name = "saba"
version = "0.1.0"
edition = "2021"
publish = false

[dependencies]
async-trait = "=0.1.92"
bytes = "=1.12.1"
clap = { version = "=4.6.7", features = ["derive"] }
csv = "=1.4.0"
daemonize = "=0.5.0"
local-ip-address = "=0.6.13"
log = "=0.4.35"
nalgebra = "=0.35.0"
prost = "0.14"
rand = "=0.8.8"
serde = { version = "=1.0.229", features = ["derive"] }
serde_json = "=1.0.154"
simplelog = "=0.12.2"
thiserror = "=2.0.21"
tokio = { version = "=1.54.1", features = ["full"] }
toml = "=1.1.8"
tonic = "=0.14.9"
tonic-prost = "0.14"

[package]
name = "network_discovery"
version = "0.1.0"
edition = "2021"
publish = false

[dependencies]
bip39 = "=2.2.2"
eyre = "=0.6.14"
libp2p = { version = "=0.53.2", features = ["kad"] }
rayon = "=1.12.0"

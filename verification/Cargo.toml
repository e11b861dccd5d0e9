[package]
name = "mint_discovery"
version = "0.1.0"
edition = "2021"
publish = false

[dependencies]
nostr-sdk = "*"
bitcoin = { version = "*", default-features = false }

[package]
name = "darkfi_wallet"
version = "0.1.0"
edition = "2021"
publish = false

[dependencies]
blake2s_simd = "=0.5.11"
dirs = "=3.0.2"
ff = "=0.8.0"
group = "=0.8.0"
jubjub = "=0.5.1"
log = "=0.4.34"
rand = "=0.7.3"
rusqlite = { version = "=0.25.4", features = ["bundled"] }
zcash_primitives = "=0.5.0"

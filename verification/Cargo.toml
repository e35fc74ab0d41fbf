[package]
name = "blastr"
version = "0.1.0"
edition = "2021"
publish = false

[dependencies]
nostr = { version = "=0.45.6", default-features = false, features = ["std"] }
worker = { version = "=0.8.7", features = ["queue", "d1"] }
serde = { version = "=1.0.229", features = ["derive"] }
serde_json = "=1.0.154"
futures = "=0.3.34"
futures-util = "=0.3.34"
wasm-bindgen = "=0.2.130"
wasm-bindgen-futures = "=0.4.80"
cfg-if = "=1.0.5"
console_error_panic_hook = "=0.1.7"

[dev-dependencies]
secp256k1 = "=0.30.0"

[package]
name = "aio_base_backend"
version = "0.1.0"
edition = "2021"
publish = false

[dependencies]
hmac = "0.12"
sha2 = "0.10"
base64 = "0.22"
candid = "0.10"
ic-cdk = "0.16"
ic-cdk-timers = "*"
ic-stable-structures = "0.6"
icrc-ledger-types = "*"
serde = { version = "1", features = ["derive"] }
serde_json = "1"
num-traits = "0.2"
urlencoding = "2"
anyhow = "1"

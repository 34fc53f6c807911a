[package]
name = "alkanes_transfer"
version = "0.1.0"
edition = "2021"
publish = false

[dependencies]
base64 = "0.21"
bitcoin = "0.32"
candid = "0.10"
hex = "0.4"
ic-cdk = "0.17"
ic-cdk-macros = "0.17"
ic-cdk-timers = "0.11"
serde = { version = "1", features = ["derive"] }
serde_bytes = "0.11"
serde_json = "1"

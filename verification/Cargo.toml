[package]
name = "hsr_frontend"
version = "0.1.0"
edition = "2021"
publish = false

[dependencies]
base64 = "=0.22.1"
rand_core = { version = "=0.9.5", features = ["os_rng"] }
serde = { version = "=1.0.229", features = ["derive"] }
serde_json = "=1.0.154"
log = "=0.4.35"
anyhow = "=1.0.104"
ureq = "=3.5.1"
stylua = "*"

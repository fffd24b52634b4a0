[package]
name = "omnia_lighting_app_backend"
version = "0.1.0"
edition = "2021"
publish = false

[dependencies]
rand_chacha = "=0.3.1"
rand = "0.8"
serde = "1"
serde_json = "1"
candid = "0.10"
ic-cdk = "0.17"
ic-cdk-timers = "0.11"

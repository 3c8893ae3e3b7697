[package]
name = "data_assets"
version = "0.1.0"
edition = "2021"
publish = false

[dependencies]
itertools = "*"
ic-cdk = "*"
candid = "*"
serde = "*"

[package]
name = "jsonb"
version = "0.1.0"
edition = "2021"
publish = false

[dependencies]
byteorder = "1"
nom = "7"
rand = "0.8"
serde_json = "1"

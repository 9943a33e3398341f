[package]
name = "v8_derive"
version = "0.1.0"
edition = "2021"
publish = false

[dependencies]
serde_json = "*"
v8 = "*"

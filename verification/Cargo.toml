[package]
name = "restaurant_core"
version = "0.1.0"
edition = "2021"
publish = false

[dependencies]
uncased = "*"
postgres = "*"
serde = "*"
serde_derive = "*"
serde_json = "*"

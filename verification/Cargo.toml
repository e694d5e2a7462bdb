[package]
name = "port_snippet"
version = "0.1.0"
edition = "2021"
publish = false

[dependencies]
notify = "*"
serde = "*"
serde_derive = "*"
serde_json = "*"

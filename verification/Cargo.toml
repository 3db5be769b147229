[package]
name = "tintanum"
version = "0.1.0"
edition = "2021"
publish = false

[dependencies]
zbus = "*"
smol = "*"
async-fs = "*"
futures-lite = "*"

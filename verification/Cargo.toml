[package]
name = "ructe"
version = "0.2.0"
edition = "2021"
publish = false

[dependencies]
nom = "2"

[package]
name = "ahjoor_rosca"
version = "0.1.0"
edition = "2021"
publish = false

[dependencies]
soroban-sdk = "*"

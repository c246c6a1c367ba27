[package]
name = "cozy-syzygy"
version = "0.1.0"
edition = "2021"
publish = false

[dependencies]
cozy-chess = "0.3"
memmap = "0.7"

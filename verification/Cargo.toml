[package]
name = "x11_client"
version = "0.1.0"
edition = "2021"
publish = false

[dependencies]
byteorder = "1"
futures = "0.1"

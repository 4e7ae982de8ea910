[package]
name = "gzbdb"
version = "0.1.0"
edition = "2021"
publish = false

[dependencies]
byteorder = "1.5.0"
openssl = "0.10.82"
rand = "0.8.8"

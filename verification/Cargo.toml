[package]
name = "bloomfilter"
version = "0.1.0"
edition = "2021"
publish = false

[dependencies]
getrandom = "0.2"
serde = "1.0"
siphasher = "1.0"

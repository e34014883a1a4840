[package]
name = "rust_cgi"
version = "0.1.0"
edition = "2021"
publish = false

[dependencies]
http = "1"

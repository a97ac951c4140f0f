[package]
name = "cache_headers"
version = "0.1.0"
edition = "2021"
publish = false

[dependencies]
bytes = "*"
headers = "*"
http = "*"
httpdate = "*"

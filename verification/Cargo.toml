[package]
name = "h3geo"
version = "0.1.0"
edition = "2021"
publish = false

[dependencies]
geo = "=0.28.0"
h3o = { version = "=0.6.4", features = ["geo"] }
itertools = "=0.13.0"
rustler = "=0.33.0"

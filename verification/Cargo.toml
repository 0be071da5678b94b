[package]
name = "byte-engine"
version = "0.1.0"
edition = "2021"
publish = false

[dependencies]
fontdue = "*"
log = "=0.4.35"
ttf-parser = "=0.25.1"

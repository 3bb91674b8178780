[package]
name = "adjmerge"
version = "0.1.0"
edition = "2021"
publish = false

[dependencies]
imara-diff = "0.2"
memchr = "2"
pico-args = "0.5"

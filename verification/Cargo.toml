[package]
name = "remedian"
version = "0.1.0"
edition = "2021"

[dependencies]
log = "0.4"

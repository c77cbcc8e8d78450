[package]
name = "miller_rabin"
version = "0.1.0"
edition = "2021"
publish = false

[dependencies]
argh = "0.1"
num-bigint = { version = "0.3", features = ["rand"] }
rand = "0.7"

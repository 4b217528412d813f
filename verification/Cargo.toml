[package]
name = "shamir-algorithm"
version = "0.1.0"
edition = "2021"
publish = false

[dependencies]
rand = "0.9"
base64 = "0.22"

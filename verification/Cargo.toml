[package]
name = "guppy"
version = "0.1.0"
edition = "2021"
publish = false

[dependencies]
fixedbitset = "=0.2.0"

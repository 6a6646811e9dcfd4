[package]
name = "simpile"
version = "0.1.0"
edition = "2021"
publish = false

[dependencies]
spin = "0.9"
nix = { version = "0.26", default-features = false, features = ["mman"] }

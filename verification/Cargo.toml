[package]
name = "elections_phragmen"
version = "0.1.0"
edition = "2021"
publish = false

[dependencies]
parity-scale-codec = { version = "=2.3.1", features = ["derive"] }
frame-support = "=3.0.0"
frame-system = "=3.0.0"
sp-npos-elections = "=3.0.0"
sp-runtime = "=3.0.0"
sp-std = "=3.0.0"
# Nothing here calls these two. They are held to the versions with which the crates above build:
# sp-core needs this substrate-bip39, and frame-support-procedural-tools this syn.
substrate-bip39 = "=0.4.2"
syn = "=1.0.60"

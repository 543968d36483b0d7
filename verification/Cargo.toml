[package]
name = "beam_packing"
version = "0.1.0"
edition = "2021"

[dependencies]
rand = "0.8"
proconio = "0.4"

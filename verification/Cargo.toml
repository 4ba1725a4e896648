[package]
name = "fst_gaddag"
version = "0.1.0"
edition = "2021"

[dependencies]
fst = "0.4"

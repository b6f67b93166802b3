[package]
name = "palindromeda"
version = "0.1.0"
edition = "2021"

[dependencies]
forward_ref = "1"

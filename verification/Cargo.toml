[package]
name = "faun"
version = "0.1.0"
edition = "2021"
publish = false

[dependencies]
bpaf = "0.9"

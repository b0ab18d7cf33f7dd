[package]
name = "cacheline_ef"
version = "0.1.0"
edition = "2021"

[dependencies]
common_traits = "*"

[dev-dependencies]
rand = "*"

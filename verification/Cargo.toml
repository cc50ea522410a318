[package]
name = "virtual_net"
version = "0.1.0"
edition = "2021"
publish = false

[dependencies]
rand = "0.7"

[dev-dependencies]
rand_core = "0.5"
rand_xorshift = "0.2"

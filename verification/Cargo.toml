[package]
name = "net_ifaces"
version = "0.1.0"
edition = "2021"
publish = false

[dependencies]
mimalloc = "0.1"

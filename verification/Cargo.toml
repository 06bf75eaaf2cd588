[package]
name = "rpcx_client"
version = "0.1.0"
edition = "2021"
publish = false

[dependencies]
rpcx_protocol = "*"

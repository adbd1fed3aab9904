[package]
name = "hosts_manipulator"
version = "0.1.0"
edition = "2021"

[dependencies]
iter_tools = "*"

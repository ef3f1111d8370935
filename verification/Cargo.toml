[package]
name = "tracecfg"
version = "0.1.0"
edition = "2021"
publish = false

[dependencies]
simple_json = "*"
itertools = "*"
dot = "*"

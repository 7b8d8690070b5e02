[package]
name = "querypath-fmt"
version = "0.1.0"
edition = "2021"
publish = false

[dependencies]
querypath = "*"
temporal-fmt = "*"

[package]
name = "pls"
version = "0.1.0"
edition = "2021"
publish = false

[dependencies]
directories = "*"
hostname = "*"
opener = "*"

[dev-dependencies]
humanesort = "0.1.0-alpha"

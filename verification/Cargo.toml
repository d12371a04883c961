[package]
name = "bicliques"
version = "0.1.0"
edition = "2021"

[dependencies]
tindex = "*"
rand = "0.8"

[package]
name = "press"
version = "0.1.0"
edition = "2021"
publish = false

[dependencies]
anyhow = "*"
shellexpand = "*"
tempdir = "*"
walkdir = "*"

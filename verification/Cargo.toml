[package]
name = "filedb"
version = "0.1.1"
edition = "2021"
publish = false

[dependencies]
dirs = "1.0"
failure = "0.1"
tempfile = "3"

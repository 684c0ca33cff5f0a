[package]
name = "mp4_merge"
version = "0.1.0"
edition = "2021"
publish = false

[dependencies]
byteorder = "1"
filetime_creation = "*"
log = "0.4"

[package]
name = "protocol"
version = "0.1.0"
edition = "2021"
publish = false

[dependencies]
crc32fast = "1"
num-traits = "0.2"
rand = "0.8"
vector3d = "*"

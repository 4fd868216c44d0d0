[package]
name = "copc"
version = "0.1.0"
edition = "2021"
publish = false

[dependencies]
byteorder = "1"
las = { version = "*", features = ["laz"] }
laz = "*"
thiserror = "2"

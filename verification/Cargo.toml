[package]
name = "rumor"
version = "0.1.0"
edition = "2021"
publish = false

[dependencies]
md5 = "*"

[dev-dependencies]
adler32 = "*"

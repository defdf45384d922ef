[package]
name = "romaudit"
version = "0.1.0"
edition = "2021"
publish = false

[dependencies]
sha1 = "0.10"
md-5 = "0.10"
crc32fast = "1"
serde_json = "1"
ctrlc = "3"

[package]
name = "glyphcull_core"
version = "0.1.0"
edition = "2021"
publish = false

[dependencies]
crc32fast = "1"
flate2 = "1"
sha2 = "0.10"
unicode-general-category = "*"
unicode-script = "*"

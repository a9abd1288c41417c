[package]
name = "rich-typography-rs"
version = "0.1.0"
edition = "2021"
publish = false

[dependencies]
rich-rs = "=1.3.0"
regex = "=1.13.1"
once_cell = "=1.21.4"

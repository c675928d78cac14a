[package]
name = "regex_dfa"
version = "0.1.0"
edition = "2021"
publish = false

[dependencies]
colored = "*"
text_io = "*"

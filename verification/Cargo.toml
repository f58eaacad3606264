[package]
name = "rten_core"
version = "0.1.0"
edition = "2021"
publish = false

[dependencies]
fancy-regex = "*"
unicode_categories = "*"
unicode-normalization = "*"

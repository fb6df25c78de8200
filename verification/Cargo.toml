[package]
name = "textflow"
version = "0.2.0"
edition = "2021"
publish = false

[dependencies]
textwrap = "=0.16.0"
unicode-width = "=0.1.10"

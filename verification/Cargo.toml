[package]
name = "anstml"
version = "0.1.0"
edition = "2021"
publish = false

[dependencies]
ansi_colours = "*"
html = "*"
itertools = "*"

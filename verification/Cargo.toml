[package]
name = "typesetter"
version = "0.1.0"
edition = "2021"
publish = false

[dependencies]
cairo-rs = "*"
fontconfig = "*"
harfbuzz_rs = "*"
pango = "*"
pangocairo = "*"

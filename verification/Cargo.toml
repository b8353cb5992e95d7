[package]
name = "fontpatch"
version = "0.1.0"
edition = "2021"
publish = false

[dependencies]
write-fonts = "=0.55.0"
skrifa = "=0.49.0"
font-types = "=0.12.7"
woff2 = "=0.2.1"

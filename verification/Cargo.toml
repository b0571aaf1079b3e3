[package]
name = "string_art"
version = "0.1.0"
edition = "2021"
publish = false

[dependencies]
image = { version = "*", default-features = false, features = ["png", "jpeg"] }
imageproc = { version = "*", default-features = false }
rayon = "1"
markdown-it = "*"
markdown-it-footnote = "*"
path-absolutize = "3"
thiserror = "1"
xcap = { version = "*", default-features = false }

[package]
name = "niri"
version = "0.1.0"
edition = "2021"
publish = false

[dependencies]
smithay = { version = "0.7.0", default-features = false }
ordered-float = "5.1.0"

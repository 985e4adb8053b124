[package]
name = "weblocks"
version = "0.1.0"
edition = "2021"
publish = false

[dependencies]
dart-sys = "*"
lazy_static = "1.4"

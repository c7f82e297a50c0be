[package]
name = "skyscraper"
version = "0.1.0"
edition = "2021"
publish = false

[dependencies]
rand = "=0.9.5"
iced = { version = "0.13", default-features = false, features = ["tiny-skia"] }

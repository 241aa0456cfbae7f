[package]
name = "kanji_freq"
version = "0.1.0"
edition = "2021"
publish = false

[dependencies]
regex = "1"
epub = "1.2"

[package]
name = "word_practice"
version = "0.1.0"
edition = "2021"
publish = false

[dependencies]
anyhow = "1"
druid = "0.8"
inquire = "0.7"
rand = "0.8"

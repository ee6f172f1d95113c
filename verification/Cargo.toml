[package]
name = "digify"
version = "0.1.0"
edition = "2021"
publish = false

[dependencies]
color-eyre = "0.6"
either = "1"
itertools = "*"
pest = "2"
pest_derive = "2"

[package]
name = "brusque"
version = "0.1.0"
edition = "2021"
publish = false

[dependencies]
docopt = "1"
num = "0.4"
pest = "0.4"

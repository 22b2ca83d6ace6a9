[package]
name = "gust"
version = "0.1.0"
edition = "2021"
publish = false

[dependencies]
flate2 = "*"
sha1 = "*"
clap = "2"
rust-ini = "*"

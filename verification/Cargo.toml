[package]
name = "copaiba"
version = "0.1.0"
edition = "2021"
publish = false

[dependencies]
encoding_rs = "0.8"
regex = "1"
hound = "3"

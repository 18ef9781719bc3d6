[package]
name = "copy_double_buffered"
version = "0.1.0"
edition = "2021"
publish = false

[dependencies]
embassy-futures = "*"
embedded-io-async = "*"

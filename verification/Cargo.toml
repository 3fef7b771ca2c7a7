[package]
name = "onebrc"
version = "0.1.0"
edition = "2021"
publish = false

[dependencies]
arrayvec = "0.7"
crossbeam = "0.8"
rustc-hash = "2"

[package]
name = "ovba"
version = "0.1.0"
edition = "2021"
publish = false

[dependencies]
cfb = "=0.10.0"
codepage = "=0.1.3"
encoding_rs = "=0.8.44"

[dev-dependencies]
nom = "7"

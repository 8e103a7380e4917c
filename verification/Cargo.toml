[package]
name = "bpe_core"
version = "0.1.0"
edition = "2021"
publish = false

[dependencies]
bstr = "1.5"
fancy-regex = "0.11"
lazy_static = "1.4"
ocaml = "*"

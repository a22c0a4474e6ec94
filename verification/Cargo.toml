[package]
name = "satysfi_documents"
version = "0.1.0"
edition = "2021"
publish = false

[dependencies]
satysfi-parser = "*"
lspower = "*"
itertools = "*"

[package]
name = "jexl_parser"
version = "0.1.0"
edition = "2021"
publish = false

[dependencies]
lalrpop-util = { version = "0.19", default-features = false }

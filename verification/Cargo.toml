[package]
name = "js-source-scopes"
version = "0.1.0"
edition = "2021"
publish = false

[dependencies]
leb128 = "0.2"
sourcemap = "*"
swc_common = "*"
swc_ecma_parser = "*"
swc_ecma_visit = { version = "*", features = ["path"] }

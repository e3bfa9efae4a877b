[package]
name = "bytecode_deps"
version = "0.1.0"
edition = "2021"
publish = false

[dependencies]
dunce = "=1.0.5"
foundry-compilers = { version = "=0.21.0", default-features = false }
itertools = "=0.14.0"
path-slash = "=0.2.1"
solar-compiler = { version = "=0.2.0", default-features = false }

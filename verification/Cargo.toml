[package]
name = "documented-toml"
version = "0.1.4"
edition = "2021"
publish = false

[dependencies]
toml_edit = "*"
nonempty = "*"

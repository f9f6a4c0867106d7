[package]
name = "scaffold"
version = "0.1.0"
edition = "2021"
publish = false

[dependencies]
anyhow = "1"
build-fs-tree = "*"
convert_case = "*"
dialoguer = "*"
handlebars = "*"
pluralizer = "*"
proc-macro2 = "1"
quote = "1"
serde_json = "1"
structopt = "*"

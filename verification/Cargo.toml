[package]
name = "convert_case_extras"
version = "0.1.0"
edition = "2021"
publish = false

[dependencies]
convert_case = "*"
rand = "*"

[package]
name = "stasko_calculator_parser"
version = "0.1.0"
edition = "2021"
publish = false

[dependencies]
thiserror = "*"

[dev-dependencies]
pest = "2"
pest_meta = "2"
pest_vm = "2"

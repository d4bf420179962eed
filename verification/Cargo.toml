[package]
name = "sv_parser_pp"
version = "0.1.0"
edition = "2021"
publish = false

[dependencies]

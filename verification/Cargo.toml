[package]
name = "dom_serialize"
version = "0.1.0"
edition = "2021"

[dependencies]
html5ever = "*"

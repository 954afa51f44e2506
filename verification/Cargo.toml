[package]
name = "progress_element"
version = "0.1.0"
edition = "2021"
publish = false

[dependencies]
html5ever = "0.25"
string_cache = "0.8"

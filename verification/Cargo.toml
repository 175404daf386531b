[package]
name = "elixir_font_discovery"
version = "0.2.0"
edition = "2021"
publish = false

[dependencies]
font-kit = "*"
rustler = "*"

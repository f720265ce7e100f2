[package]
name = "vterm"
version = "0.5.1"
edition = "2021"
publish = false

[dependencies]
nativelite-ansi = "=0.4.1"

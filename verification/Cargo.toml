[package]
name = "nix_editor"
version = "0.1.0"
edition = "2021"
publish = false

[dependencies]
rnix = "0.10"
failure = "0.1"

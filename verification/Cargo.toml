[package]
name = "nix_nav"
version = "0.1.0"
edition = "2021"
publish = false

[dependencies]
lsp-types = "0.95"
rnix = "*"
url = "2"

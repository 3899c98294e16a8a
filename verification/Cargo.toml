[package]
name = "backup_core"
version = "0.1.0"
edition = "2021"
publish = false

[dependencies]
handlebars = "*"
openssl = "*"
anyhow = "*"
nix = "*"
libc = "*"
chrono = "*"
serde_json = "*"

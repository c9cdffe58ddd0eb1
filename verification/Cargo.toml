[package]
name = "macos_media_toolkit"
version = "0.1.0"
edition = "2021"
publish = false

[dependencies]
anyhow = "1"
cidre = "*"
log = "0.4"
thiserror = "*"

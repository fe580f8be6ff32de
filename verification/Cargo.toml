[package]
name = "markdown_style"
version = "0.6.1"
edition = "2021"
publish = false

[dependencies]
comrak = { version = "=0.59.0", default-features = false }
ignore = "*"

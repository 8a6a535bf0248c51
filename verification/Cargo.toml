[package]
name = "bookshelf_r"
version = "0.1.0"
edition = "2021"
publish = false

[dependencies]
argh = "*"
libc = "*"
pstools = "*"
scan_fmt = "*"
sscanf = "*"

[package]
name = "elf_repack"
version = "0.1.0"
edition = "2021"
publish = false

[dependencies]
humansize = "*"

[dev-dependencies]
object = "*"

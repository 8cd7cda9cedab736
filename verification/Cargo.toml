[package]
name = "manifest_producer"
version = "0.1.0"
edition = "2021"
publish = false

[dependencies]
gimli = "*"
goblin = "*"
memmap2 = "*"
object = "*"
rustc-demangle = "*"
serde_json = "*"

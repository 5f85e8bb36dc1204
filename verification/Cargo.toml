[package]
name = "bfjit"
version = "0.1.0"
edition = "2021"
publish = false

[dependencies]
anyhow = "1"
iced-x86 = { version = "1", features = ["code_asm"] }
nix = { version = "0.26", features = ["mman"] }

[package]
name = "seppolang"
version = "0.1.0"
edition = "2021"
publish = false

[dependencies]
anyhow = "=1.0.104"
inkwell = { version = "=0.5.0", features = ["llvm14-0-force-dynamic"] }
pest = "=2.9.4"
pest_derive = "=2.9.4"

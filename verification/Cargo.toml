[package]
name = "et_radiosity"
version = "0.1.0"
edition = "2021"
publish = false

[dependencies]
anyhow = "1"
clap = { version = "4", features = ["derive"] }
et-abi = "=0.4.2"
et-k-rs = "=0.4.2"
et-rs = "=0.4.2"
image = { version = "0.25", default-features = false, features = ["png"] }
rayon = "1"
tobj = "4"

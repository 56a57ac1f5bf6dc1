[package]
name = "hawk512"
version = "0.1.0"
edition = "2021"
publish = false

[dependencies]
solana-program-error = "*"
solana-shake256 = "*"

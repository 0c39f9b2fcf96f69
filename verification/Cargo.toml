[package]
name = "fasta_fixa"
version = "0.1.0"
edition = "2021"
publish = false

[dependencies]
clap = { version = "4", features = ["derive"] }
clap_derive = "4"
needletail = "*"

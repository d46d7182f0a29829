[package]
name = "scm_crafter"
version = "0.1.0"
edition = "2021"
publish = false

[dependencies]
anyhow = "1"
itertools = "*"
json = "0.12"
strum = { version = "*", features = ["derive"] }
strum_macros = "*"
unidecode = "0.3"

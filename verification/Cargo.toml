[package]
name = "sghtmltopdf_core"
version = "0.1.0"
edition = "2021"
publish = false

[dependencies]
flate2 = "=1.1.10"
pdf-writer = "=0.12.1"
svg2pdf = { version = "=0.13.0", default-features = false }

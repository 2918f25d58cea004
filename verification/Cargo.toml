[package]
name = "pdf_slicer"
version = "0.1.0"
edition = "2021"
publish = false

[dependencies]
csv = "1"
lopdf = "*"
serde = { version = "1", features = ["derive"] }
thiserror = "1"
